//! Intersection and union kernels, one per pair of representations. Each returns a
//! consistent container in the representation the operation naturally produces; the
//! caller settles it with `normalize`.

use vstd::prelude::*;
use crate::bits::{bit_of, lemma_bit_ops, lemma_popcount_bound, lemma_range_mask, lemma_zero_bits, popcount};
use crate::counting::lemma_len_bound;
use crate::sorted::{lemma_sorted_gap, strictly_sorted};
use super::array::ArrayContainer;
use super::bitmap::{bm_set, lemma_bm_card, sum_popcount, BitmapContainer};
use super::run::{
    in_run, lemma_runs_counts, lemma_runs_prefix_step, lemma_runs_set_empty,
    lemma_runs_set_single, lemma_splice_set, lemma_splice_wf, run_end, runs_set, runs_wf,
    sum_counts, Run, RunContainer,
};
use super::{Container, Repr};

verus! {

/// The sum of population counts of the first `k` words depends on those words only.
proof fn lemma_sum_popcount_prefix(w1: Seq<u64>, w2: Seq<u64>, k: nat)
    requires
        k <= w1.len(),
        k <= w2.len(),
        forall|i: int| 0 <= i < k ==> w1[i] == w2[i],
    ensures
        sum_popcount(w1, k) == sum_popcount(w2, k),
    decreases k,
{
    if k > 0 {
        lemma_sum_popcount_prefix(w1, w2, (k - 1) as nat);
    }
}

/// Appending `v` above every element keeps a sequence strictly sorted.
proof fn lemma_push_sorted(s: Seq<u16>, v: u16)
    requires
        strictly_sorted(s),
        s.len() > 0 ==> s.last() < v,
    ensures
        strictly_sorted(s.push(v)),
{
    let t = s.push(v);
    assert forall|i: int, j: int| 0 <= i < j < t.len() implies t[i] < t[j] by {
        if j == s.len() {
            if i < s.len() - 1 {
                assert(s[i] < s[s.len() - 1]);
            }
        }
    }
}

/// The prefix `0..i + 1` as a set is the prefix `0..i` plus element `i`.
proof fn lemma_prefix_set_step(s: Seq<u16>, i: int)
    requires
        0 <= i < s.len(),
    ensures
        s.subrange(0, i + 1).to_set() == s.subrange(0, i).to_set().insert(s[i]),
{
    assert(s.subrange(0, i + 1) =~= s.subrange(0, i).push(s[i]));
    s.subrange(0, i).lemma_push_to_set_commute(s[i]);
}

/// Intersection of an array with a bitmap: the array values the bitmap holds.
pub fn and_array_bitmap(a: &ArrayContainer, b: &BitmapContainer) -> (c: Container)
    requires
        a.wf(),
        b.wf(),
    ensures
        c.inner_wf(),
        c.repr() == Repr::Array,
        c@ == a@.intersect(b@),
{
    let vals = a.as_slice();
    let n = vals.len();
    let mut out: Vec<u16> = Vec::new();
    let mut i: usize = 0;
    proof {
        assert(out@.to_set() =~= vals@.subrange(0, 0).to_set().intersect(b@));
    }
    while i < n
        invariant
            a.wf(),
            b.wf(),
            vals@ == a.seq(),
            n == vals@.len(),
            0 <= i <= n,
            strictly_sorted(out@),
            i < n && out@.len() > 0 ==> out@.last() < vals@[i as int],
            out@.to_set() == vals@.subrange(0, i as int).to_set().intersect(b@),
        decreases n - i,
    {
        let v = vals[i];
        proof {
            lemma_prefix_set_step(vals@, i as int);
        }
        if b.contains(v) {
            proof {
                lemma_push_sorted(out@, v);
                out@.lemma_push_to_set_commute(v);
            }
            out.push(v);
        }
        proof {
            assert(out@.to_set() =~= vals@.subrange(0, i + 1).to_set().intersect(b@));
            if i + 1 < n {
                assert(vals@[i as int] < vals@[i + 1]);
            }
        }
        i = i + 1;
    }
    proof {
        assert(vals@.subrange(0, n as int) =~= vals@);
    }
    Container::Array(ArrayContainer::from_sorted_vec(out))
}

/// Union of an array with a bitmap: the bitmap with every array value set.
pub fn or_array_bitmap(a: &ArrayContainer, b: &BitmapContainer) -> (c: Container)
    requires
        a.wf(),
        b.wf(),
    ensures
        c.inner_wf(),
        c.repr() == Repr::Bitmap,
        c@ == a@.union(b@),
{
    let mut bm = b.clone();
    let vals = a.as_slice();
    let n = vals.len();
    let mut i: usize = 0;
    proof {
        assert(bm@ =~= b@.union(vals@.subrange(0, 0).to_set()));
    }
    while i < n
        invariant
            a.wf(),
            vals@ == a.seq(),
            n == vals@.len(),
            0 <= i <= n,
            bm.wf(),
            bm@ == b@.union(vals@.subrange(0, i as int).to_set()),
        decreases n - i,
    {
        let v = vals[i];
        bm.insert(v);
        proof {
            lemma_prefix_set_step(vals@, i as int);
            assert(bm@ =~= b@.union(vals@.subrange(0, i + 1).to_set()));
        }
        i = i + 1;
    }
    proof {
        assert(vals@.subrange(0, n as int) =~= vals@);
        assert(bm@ =~= a@.union(b@));
    }
    Container::Bitmap(bm)
}

/// Intersection of an array with a run list: the array values the runs cover.
pub fn and_array_run(a: &ArrayContainer, r: &RunContainer) -> (c: Container)
    requires
        a.wf(),
        r.wf(),
    ensures
        c.inner_wf(),
        c.repr() == Repr::Array,
        c@ == a@.intersect(r@),
{
    let vals = a.as_slice();
    let n = vals.len();
    let mut out: Vec<u16> = Vec::new();
    let mut i: usize = 0;
    proof {
        assert(out@.to_set() =~= vals@.subrange(0, 0).to_set().intersect(r@));
    }
    while i < n
        invariant
            a.wf(),
            r.wf(),
            vals@ == a.seq(),
            n == vals@.len(),
            0 <= i <= n,
            strictly_sorted(out@),
            i < n && out@.len() > 0 ==> out@.last() < vals@[i as int],
            out@.to_set() == vals@.subrange(0, i as int).to_set().intersect(r@),
        decreases n - i,
    {
        let v = vals[i];
        proof {
            lemma_prefix_set_step(vals@, i as int);
        }
        if r.contains(v) {
            proof {
                lemma_push_sorted(out@, v);
                out@.lemma_push_to_set_commute(v);
            }
            out.push(v);
        }
        proof {
            assert(out@.to_set() =~= vals@.subrange(0, i + 1).to_set().intersect(r@));
            if i + 1 < n {
                assert(vals@[i as int] < vals@[i + 1]);
            }
        }
        i = i + 1;
    }
    proof {
        assert(vals@.subrange(0, n as int) =~= vals@);
    }
    Container::Array(ArrayContainer::from_sorted_vec(out))
}

/// Union of an array with a run list: the run list with every array value inserted.
pub fn or_array_run(a: &ArrayContainer, r: &RunContainer) -> (c: Container)
    requires
        a.wf(),
        r.wf(),
    ensures
        c.inner_wf(),
        c.repr() == Repr::Run,
        c@ == a@.union(r@),
{
    let mut rc = r.clone();
    let vals = a.as_slice();
    let n = vals.len();
    let mut i: usize = 0;
    proof {
        assert(rc@ =~= r@.union(vals@.subrange(0, 0).to_set()));
    }
    while i < n
        invariant
            a.wf(),
            vals@ == a.seq(),
            n == vals@.len(),
            0 <= i <= n,
            rc.wf(),
            rc@ == r@.union(vals@.subrange(0, i as int).to_set()),
        decreases n - i,
    {
        let v = vals[i];
        rc.insert(v);
        proof {
            lemma_prefix_set_step(vals@, i as int);
            assert(rc@ =~= r@.union(vals@.subrange(0, i + 1).to_set()));
        }
        i = i + 1;
    }
    proof {
        assert(vals@.subrange(0, n as int) =~= vals@);
        assert(rc@ =~= a@.union(r@));
    }
    Container::Run(rc)
}

/// Intersection of two bitmaps, word by word.
pub fn and_bitmap_bitmap(a: &BitmapContainer, b: &BitmapContainer) -> (c: Container)
    requires
        a.wf(),
        b.wf(),
    ensures
        c.inner_wf(),
        c.repr() == Repr::Bitmap,
        c@ == a@.intersect(b@),
{
    let wa = a.words();
    let wb = b.words();
    let mut words = vec![0u64; 1024];
    let mut card: u32 = 0;
    let mut i: usize = 0;
    while i < 1024
        invariant
            wa@ == a.words_seq(),
            wb@ == b.words_seq(),
            a.wf(),
            b.wf(),
            words@.len() == 1024,
            0 <= i <= 1024,
            forall|k: int| 0 <= k < i ==> words@[k] == wa@[k] & wb@[k],
            card == sum_popcount(words@, i as nat),
            card <= 64 * i,
        decreases 1024 - i,
    {
        let w = wa[i] & wb[i];
        let ghost before = words@;
        words[i] = w;
        proof {
            lemma_sum_popcount_prefix(before, words@, i as nat);
            lemma_popcount_bound(w, 64);
        }
        card = card + w.count_ones();
        i = i + 1;
    }
    proof {
        lemma_bit_ops();
        lemma_bm_card(words@);
        assert(bm_set(words@) =~= a@.intersect(b@));
    }
    Container::Bitmap(BitmapContainer::from_words(words, card))
}

/// Union of two bitmaps, word by word.
pub fn or_bitmap_bitmap(a: &BitmapContainer, b: &BitmapContainer) -> (c: Container)
    requires
        a.wf(),
        b.wf(),
    ensures
        c.inner_wf(),
        c.repr() == Repr::Bitmap,
        c@ == a@.union(b@),
{
    let wa = a.words();
    let wb = b.words();
    let mut words = vec![0u64; 1024];
    let mut card: u32 = 0;
    let mut i: usize = 0;
    while i < 1024
        invariant
            wa@ == a.words_seq(),
            wb@ == b.words_seq(),
            a.wf(),
            b.wf(),
            words@.len() == 1024,
            0 <= i <= 1024,
            forall|k: int| 0 <= k < i ==> words@[k] == wa@[k] | wb@[k],
            card == sum_popcount(words@, i as nat),
            card <= 64 * i,
        decreases 1024 - i,
    {
        let w = wa[i] | wb[i];
        let ghost before = words@;
        words[i] = w;
        proof {
            lemma_sum_popcount_prefix(before, words@, i as nat);
            lemma_popcount_bound(w, 64);
        }
        card = card + w.count_ones();
        i = i + 1;
    }
    proof {
        lemma_bit_ops();
        lemma_bm_card(words@);
        assert(bm_set(words@) =~= a@.union(b@));
    }
    Container::Bitmap(BitmapContainer::from_words(words, card))
}

/// Intersection of two arrays: a merge over both sorted value lists.
pub fn and_array_array(a: &ArrayContainer, b: &ArrayContainer) -> (c: Container)
    requires
        a.wf(),
        b.wf(),
    ensures
        c.inner_wf(),
        c.repr() == Repr::Array,
        c@ == a@.intersect(b@),
{
    let sa = a.as_slice();
    let sb = b.as_slice();
    let la = sa.len();
    let lb = sb.len();
    let mut out: Vec<u16> = Vec::new();
    let mut i: usize = 0;
    let mut j: usize = 0;
    proof {
        assert(out@.to_set() =~= sa@.subrange(0, 0).to_set().intersect(b@).union(
            a@.intersect(sb@.subrange(0, 0).to_set()),
        ));
    }
    while i < la && j < lb
        invariant
            a.wf(),
            b.wf(),
            sa@ == a.seq(),
            sb@ == b.seq(),
            la == sa@.len(),
            lb == sb@.len(),
            0 <= i <= la,
            0 <= j <= lb,
            strictly_sorted(out@),
            i < la && out@.len() > 0 ==> out@.last() < sa@[i as int],
            j < lb && out@.len() > 0 ==> out@.last() < sb@[j as int],
            j > 0 && i < la ==> sb@[j - 1] < sa@[i as int],
            i > 0 && j < lb ==> sa@[i - 1] < sb@[j as int],
            out@.to_set() == sa@.subrange(0, i as int).to_set().intersect(b@).union(
                a@.intersect(sb@.subrange(0, j as int).to_set()),
            ),
        decreases la - i + lb - j,
    {
        let x = sa[i];
        let y = sb[j];
        proof {
            lemma_prefix_set_step(sa@, i as int);
            lemma_prefix_set_step(sb@, j as int);
        }
        if x < y {
            proof {
                lemma_sorted_gap(sb@, j as int, x);
                assert(out@.to_set() =~= sa@.subrange(0, i + 1).to_set().intersect(b@).union(
                    a@.intersect(sb@.subrange(0, j as int).to_set()),
                ));
                if i + 1 < la {
                    assert(sa@[i as int] < sa@[i + 1]);
                }
            }
            i = i + 1;
        } else if x > y {
            proof {
                lemma_sorted_gap(sa@, i as int, y);
                assert(out@.to_set() =~= sa@.subrange(0, i as int).to_set().intersect(b@).union(
                    a@.intersect(sb@.subrange(0, j + 1).to_set()),
                ));
                if j + 1 < lb {
                    assert(sb@[j as int] < sb@[j + 1]);
                }
            }
            j = j + 1;
        } else {
            proof {
                lemma_push_sorted(out@, x);
                out@.lemma_push_to_set_commute(x);
            }
            out.push(x);
            proof {
                assert(out@.to_set() =~= sa@.subrange(0, i + 1).to_set().intersect(b@).union(
                    a@.intersect(sb@.subrange(0, j + 1).to_set()),
                ));
                if i + 1 < la {
                    assert(sa@[i as int] < sa@[i + 1]);
                }
                if j + 1 < lb {
                    assert(sb@[j as int] < sb@[j + 1]);
                }
            }
            i = i + 1;
            j = j + 1;
        }
    }
    proof {
        if i == la {
            assert(sa@.subrange(0, la as int) =~= sa@);
        } else {
            assert(sb@.subrange(0, lb as int) =~= sb@);
        }
        assert(out@.to_set() =~= a@.intersect(b@));
    }
    Container::Array(ArrayContainer::from_sorted_vec(out))
}

/// Union of two arrays: a merge when the total fits an array, else a bitmap.
pub fn or_array_array(a: &ArrayContainer, b: &ArrayContainer) -> (c: Container)
    requires
        a.wf(),
        b.wf(),
    ensures
        c.inner_wf(),
        c.repr() == if a@.len() + b@.len() <= 4096 {
            Repr::Array
        } else {
            Repr::Bitmap
        },
        c@ == a@.union(b@),
{
    proof {
        a.lemma_len();
        b.lemma_len();
    }
    if a.cardinality() + b.cardinality() <= 4096 {
        let sa = a.as_slice();
        let sb = b.as_slice();
        let la = sa.len();
        let lb = sb.len();
        let mut out: Vec<u16> = Vec::new();
        let mut i: usize = 0;
        let mut j: usize = 0;
        proof {
            assert(out@.to_set() =~= sa@.subrange(0, 0).to_set().union(
                sb@.subrange(0, 0).to_set(),
            ));
        }
        while i < la && j < lb
            invariant
                a.wf(),
                b.wf(),
                sa@ == a.seq(),
                sb@ == b.seq(),
                la == sa@.len(),
                lb == sb@.len(),
                0 <= i <= la,
                0 <= j <= lb,
                strictly_sorted(out@),
                i < la && out@.len() > 0 ==> out@.last() < sa@[i as int],
                j < lb && out@.len() > 0 ==> out@.last() < sb@[j as int],
                out@.to_set() == sa@.subrange(0, i as int).to_set().union(
                    sb@.subrange(0, j as int).to_set(),
                ),
            decreases la - i + lb - j,
        {
            let x = sa[i];
            let y = sb[j];
            proof {
                lemma_prefix_set_step(sa@, i as int);
                lemma_prefix_set_step(sb@, j as int);
                if i + 1 < la {
                    assert(sa@[i as int] < sa@[i + 1]);
                }
                if j + 1 < lb {
                    assert(sb@[j as int] < sb@[j + 1]);
                }
            }
            if x < y {
                proof {
                    lemma_push_sorted(out@, x);
                    out@.lemma_push_to_set_commute(x);
                }
                out.push(x);
                proof {
                    assert(out@.to_set() =~= sa@.subrange(0, i + 1).to_set().union(
                        sb@.subrange(0, j as int).to_set(),
                    ));
                }
                i = i + 1;
            } else if x > y {
                proof {
                    lemma_push_sorted(out@, y);
                    out@.lemma_push_to_set_commute(y);
                }
                out.push(y);
                proof {
                    assert(out@.to_set() =~= sa@.subrange(0, i as int).to_set().union(
                        sb@.subrange(0, j + 1).to_set(),
                    ));
                }
                j = j + 1;
            } else {
                proof {
                    lemma_push_sorted(out@, x);
                    out@.lemma_push_to_set_commute(x);
                }
                out.push(x);
                proof {
                    assert(out@.to_set() =~= sa@.subrange(0, i + 1).to_set().union(
                        sb@.subrange(0, j + 1).to_set(),
                    ));
                }
                i = i + 1;
                j = j + 1;
            }
        }
        while i < la
            invariant
                a.wf(),
                b.wf(),
                sa@ == a.seq(),
                sb@ == b.seq(),
                la == sa@.len(),
                lb == sb@.len(),
                0 <= i <= la,
                0 <= j <= lb,
                i < la ==> j == lb,
                strictly_sorted(out@),
                i < la && out@.len() > 0 ==> out@.last() < sa@[i as int],
                j < lb && out@.len() > 0 ==> out@.last() < sb@[j as int],
                out@.to_set() == sa@.subrange(0, i as int).to_set().union(
                    sb@.subrange(0, j as int).to_set(),
                ),
            decreases la - i,
        {
            let x = sa[i];
            proof {
                lemma_prefix_set_step(sa@, i as int);
                if i + 1 < la {
                    assert(sa@[i as int] < sa@[i + 1]);
                }
                lemma_push_sorted(out@, x);
                out@.lemma_push_to_set_commute(x);
            }
            out.push(x);
            proof {
                assert(out@.to_set() =~= sa@.subrange(0, i + 1).to_set().union(
                    sb@.subrange(0, j as int).to_set(),
                ));
            }
            i = i + 1;
        }
        while j < lb
            invariant
                a.wf(),
                b.wf(),
                sa@ == a.seq(),
                sb@ == b.seq(),
                la == sa@.len(),
                lb == sb@.len(),
                i == la,
                0 <= j <= lb,
                strictly_sorted(out@),
                j < lb && out@.len() > 0 ==> out@.last() < sb@[j as int],
                out@.to_set() == sa@.subrange(0, i as int).to_set().union(
                    sb@.subrange(0, j as int).to_set(),
                ),
            decreases lb - j,
        {
            let y = sb[j];
            proof {
                lemma_prefix_set_step(sb@, j as int);
                if j + 1 < lb {
                    assert(sb@[j as int] < sb@[j + 1]);
                }
                lemma_push_sorted(out@, y);
                out@.lemma_push_to_set_commute(y);
            }
            out.push(y);
            proof {
                assert(out@.to_set() =~= sa@.subrange(0, i as int).to_set().union(
                    sb@.subrange(0, j + 1).to_set(),
                ));
            }
            j = j + 1;
        }
        proof {
            assert(sa@.subrange(0, la as int) =~= sa@);
            assert(sb@.subrange(0, lb as int) =~= sb@);
        }
        Container::Array(ArrayContainer::from_sorted_vec(out))
    } else {
        // Over the threshold: build a bitmap; `normalize` drops it back to an array if
        // shared values kept the true union at or below 4096.
        let mut bm = BitmapContainer::from_array(a);
        let sb = b.as_slice();
        let lb = sb.len();
        let mut j: usize = 0;
        proof {
            assert(bm@ =~= a@.union(sb@.subrange(0, 0).to_set()));
        }
        while j < lb
            invariant
                b.wf(),
                sb@ == b.seq(),
                lb == sb@.len(),
                0 <= j <= lb,
                bm.wf(),
                bm@ == a@.union(sb@.subrange(0, j as int).to_set()),
            decreases lb - j,
        {
            let v = sb[j];
            bm.insert(v);
            proof {
                lemma_prefix_set_step(sb@, j as int);
                assert(bm@ =~= a@.union(sb@.subrange(0, j + 1).to_set()));
            }
            j = j + 1;
        }
        proof {
            assert(sb@.subrange(0, lb as int) =~= sb@);
        }
        Container::Bitmap(bm)
    }
}

/// Sets, in each word overlapping the value range `start ..= end`, the bits of that range:
/// all of them, or with `src` only those also set in `src`.
fn for_range_words(words: &mut Vec<u64>, src: Option<&Vec<u64>>, start: u32, end: u32)
    requires
        old(words)@.len() == 1024,
        src is Some ==> src->0@.len() == 1024,
        start <= end <= 65535,
    ensures
        final(words)@.len() == 1024,
        forall|x: u16| #[trigger]
            bm_set(final(words)@).contains(x) == (bm_set(old(words)@).contains(x) || (start <= x
                <= end && (src is None || bm_set(src->0@).contains(x)))),
{
    let sw = (start >> 6) as usize;
    let ew = (end >> 6) as usize;
    let sb = (start & 63) as u64;
    let eb = (end & 63) as u64;
    proof {
        assert(sw as int == start as int / 64 && sb as int == start as int % 64) by (bit_vector)
            requires
                sw == (start >> 6u32) as usize,
                sb == (start & 63u32) as u64,
        ;
        assert(ew as int == end as int / 64 && eb as int == end as int % 64) by (bit_vector)
            requires
                ew == (end >> 6u32) as usize,
                eb == (end & 63u32) as u64,
        ;
    }
    let mut k = sw;
    while k <= ew
        invariant
            words@.len() == 1024,
            src is Some ==> src->0@.len() == 1024,
            start <= end <= 65535,
            sw as int == start as int / 64,
            sb as int == start as int % 64,
            ew as int == end as int / 64,
            eb as int == end as int % 64,
            sw <= k <= ew + 1,
            ew < 1024,
            forall|x: u16| #[trigger]
                bm_set(words@).contains(x) == (bm_set(old(words)@).contains(x) || (start <= x <= end
                    && (x as int) < 64 * k && (src is None || bm_set(src->0@).contains(x)))),
        decreases ew + 1 - k,
    {
        let lo: u64 = if k == sw {
            sb
        } else {
            0
        };
        let hi: u64 = if k == ew {
            eb
        } else {
            63
        };
        let mask = (!0u64 << lo) & (!0u64 >> (63 - hi));
        let ghost before = words@;
        let add = match src {
            Some(s) => s[k] & mask,
            None => mask,
        };
        words[k] = words[k] | add;
        proof {
            lemma_range_mask(lo, hi);
            lemma_bit_ops();
            assert forall|x: u16| #[trigger]
                bm_set(words@).contains(x) == (bm_set(old(words)@).contains(x) || (start <= x <= end
                    && (x as int) < 64 * (k + 1) && (src is None || bm_set(src->0@).contains(x)))) by {
                let q = x as int / 64;
                let j = (x as int % 64) as u64;
                assert(x as int == 64 * q + j);
                assert(bm_set(words@).contains(x) == bit_of(words@[q], j));
                assert(bm_set(before).contains(x) == bit_of(before[q], j));
                if q == k {
                    assert(words@[q] == before[q] | add);
                    assert(bit_of(mask, j) == (lo <= j && j <= hi));
                    assert((lo <= j && j <= hi) == (start <= x <= end));
                    match src {
                        Some(sv) => {
                            assert(add == sv@[q] & mask);
                            assert(bm_set(sv@).contains(x) == bit_of(sv@[q], j));
                        },
                        None => {},
                    }
                } else {
                    assert(words@[q] == before[q]);
                }
            }
        }
        k = k + 1;
    }
}

/// Sum of the population counts of 1024 words: the size of their set.
pub(crate) fn count_words(words: &Vec<u64>) -> (c: u32)
    requires
        words@.len() == 1024,
    ensures
        c == bm_set(words@).len(),
{
    let mut card: u32 = 0;
    let mut i: usize = 0;
    while i < 1024
        invariant
            words@.len() == 1024,
            0 <= i <= 1024,
            card == sum_popcount(words@, i as nat),
            card <= 64 * i,
        decreases 1024 - i,
    {
        proof {
            lemma_popcount_bound(words@[i as int], 64);
        }
        card = card + words[i].count_ones();
        i = i + 1;
    }
    proof {
        lemma_bm_card(words@);
    }
    card
}

/// Intersection of a bitmap with a run list: for each run, the bitmap's bits in its range.
pub fn and_bitmap_run(b: &BitmapContainer, r: &RunContainer) -> (c: Container)
    requires
        b.wf(),
        r.wf(),
    ensures
        c.inner_wf(),
        c.repr() == Repr::Bitmap,
        c@ == b@.intersect(r@),
{
    let src = b.words();
    let runs = r.runs();
    let mut words = vec![0u64; 1024];
    let mut k: usize = 0;
    proof {
        lemma_zero_bits();
        lemma_runs_set_empty();
        assert(runs@.subrange(0, 0) =~= Seq::<Run>::empty());
        assert(bm_set(words@) =~= b@.intersect(runs_set(runs@.subrange(0, 0))));
    }
    while k < runs.len()
        invariant
            b.wf(),
            r.wf(),
            src@ == b.words_seq(),
            runs@ == r.runs_seq(),
            0 <= k <= runs@.len(),
            words@.len() == 1024,
            bm_set(words@) == b@.intersect(runs_set(runs@.subrange(0, k as int))),
        decreases runs@.len() - k,
    {
        let run = runs[k];
        let start = run.start as u32;
        let end = start + run.len as u32;
        proof {
            lemma_runs_prefix_step(runs@, k as int);
        }
        for_range_words(&mut words, Some(src), start, end);
        proof {
            assert(bm_set(words@) =~= b@.intersect(runs_set(runs@.subrange(0, k + 1))));
        }
        k = k + 1;
    }
    proof {
        assert(runs@.subrange(0, runs@.len() as int) =~= runs@);
    }
    let card = count_words(&words);
    Container::Bitmap(BitmapContainer::from_words(words, card))
}

/// Union of a bitmap with a run list: the bitmap with every run's range set.
pub fn or_bitmap_run(b: &BitmapContainer, r: &RunContainer) -> (c: Container)
    requires
        b.wf(),
        r.wf(),
    ensures
        c.inner_wf(),
        c.repr() == Repr::Bitmap,
        c@ == b@.union(r@),
{
    let runs = r.runs();
    let mut words = b.words().clone();
    let mut k: usize = 0;
    proof {
        assert(words@ =~= b.words_seq());
        lemma_runs_set_empty();
        assert(runs@.subrange(0, 0) =~= Seq::<Run>::empty());
        assert(bm_set(words@) =~= b@.union(runs_set(runs@.subrange(0, 0))));
    }
    while k < runs.len()
        invariant
            b.wf(),
            r.wf(),
            runs@ == r.runs_seq(),
            0 <= k <= runs@.len(),
            words@.len() == 1024,
            bm_set(words@) == b@.union(runs_set(runs@.subrange(0, k as int))),
        decreases runs@.len() - k,
    {
        let run = runs[k];
        let start = run.start as u32;
        let end = start + run.len as u32;
        proof {
            lemma_runs_prefix_step(runs@, k as int);
        }
        for_range_words(&mut words, None, start, end);
        proof {
            assert(bm_set(words@) =~= b@.union(runs_set(runs@.subrange(0, k + 1))));
        }
        k = k + 1;
    }
    proof {
        assert(runs@.subrange(0, runs@.len() as int) =~= runs@);
    }
    let card = count_words(&words);
    Container::Bitmap(BitmapContainer::from_words(words, card))
}

/// Sum of `len + 1` over well-formed runs: the number of values they cover.
fn sum_run_counts(runs: &Vec<Run>) -> (c: u32)
    requires
        runs_wf(runs@),
    ensures
        c == sum_counts(runs@),
{
    let mut card: u32 = 0;
    let mut k: usize = 0;
    while k < runs.len()
        invariant
            runs_wf(runs@),
            0 <= k <= runs@.len(),
            card == sum_counts(runs@.subrange(0, k as int)),
        decreases runs@.len() - k,
    {
        proof {
            let p = runs@.subrange(0, k + 1);
            assert(p.drop_last() =~= runs@.subrange(0, k as int));
            assert(runs_wf(p));
            lemma_runs_counts(p);
            lemma_len_bound(runs_set(p));
        }
        card = card + runs[k].len as u32 + 1;
        k = k + 1;
    }
    proof {
        assert(runs@.subrange(0, runs@.len() as int) =~= runs@);
    }
    card
}

/// In well-formed runs `rb`, a value of a range that ends no later than run `j` and that
/// `rb` covers lies in the runs before `j` or in run `j` itself.
proof fn lemma_covered_upto(rb: Seq<Run>, j: int, x: u16, e: int)
    requires
        runs_wf(rb),
        0 <= j < rb.len(),
        x as int <= e,
        e <= run_end(rb[j]),
        runs_set(rb).contains(x),
    ensures
        runs_set(rb.subrange(0, j)).contains(x) || in_run(rb[j], x),
{
    let m = choose|m: int| 0 <= m < rb.len() && #[trigger] in_run(rb[m], x);
    if m < j {
        assert(in_run(rb.subrange(0, j)[m], x));
    } else if m > j {
        assert(run_end(rb[j]) + 1 < rb[m].start);
    }
}

/// Intersection of two run lists: a two-pointer walk emitting the overlap of each pair of
/// overlapping runs.
pub fn and_run_run(a: &RunContainer, b: &RunContainer) -> (c: Container)
    requires
        a.wf(),
        b.wf(),
    ensures
        c.inner_wf(),
        c.repr() == Repr::Run,
        c@ == a@.intersect(b@),
{
    let ra = a.runs();
    let rb = b.runs();
    let la = ra.len();
    let lb = rb.len();
    let mut out: Vec<Run> = Vec::new();
    let mut i: usize = 0;
    let mut j: usize = 0;
    proof {
        lemma_runs_set_empty();
        assert(ra@.subrange(0, 0) =~= Seq::<Run>::empty());
        assert(rb@.subrange(0, 0) =~= Seq::<Run>::empty());
        assert(runs_set(out@) =~= runs_set(ra@.subrange(0, 0)).intersect(b@).union(
            a@.intersect(runs_set(rb@.subrange(0, 0))),
        ));
    }
    while i < la && j < lb
        invariant
            a.wf(),
            b.wf(),
            ra@ == a.runs_seq(),
            rb@ == b.runs_seq(),
            la == ra@.len(),
            lb == rb@.len(),
            0 <= i <= la,
            0 <= j <= lb,
            runs_wf(out@),
            out@.len() > 0 && i < la && j < lb ==> (run_end(out@.last()) + 1 < ra@[i as int].start
                || run_end(out@.last()) + 1 < rb@[j as int].start),
            runs_set(out@) == runs_set(ra@.subrange(0, i as int)).intersect(b@).union(
                a@.intersect(runs_set(rb@.subrange(0, j as int))),
            ),
        decreases la - i + lb - j,
    {
        let ghost old_out = out@;
        let a_start = ra[i].start as u32;
        let a_end = a_start + ra[i].len as u32;
        let b_start = rb[j].start as u32;
        let b_end = b_start + rb[j].len as u32;
        let lo = if a_start > b_start {
            a_start
        } else {
            b_start
        };
        let hi = if a_end < b_end {
            a_end
        } else {
            b_end
        };
        let ghost piece = Set::<u16>::new(|x: u16| in_run(ra@[i as int], x) && in_run(rb@[j as int], x));
        if lo <= hi {
            let p = Run { start: lo as u16, len: (hi - lo) as u16 };
            out.push(p);
            proof {
                let n = old_out.len() as int;
                assert(out@ =~= old_out.subrange(0, n) + seq![p] + old_out.subrange(n, n));
                lemma_splice_set(old_out, n, n, seq![p]);
                lemma_runs_set_single(p);
                assert(old_out.subrange(n, n) =~= Seq::<Run>::empty());
                assert(old_out.subrange(0, n) =~= old_out);
                lemma_runs_set_empty();
                if n > 0 {
                    assert(run_end(old_out[n - 1]) + 1 < p.start);
                }
                lemma_splice_wf(old_out, n, n, seq![p]);
                assert(runs_set(out@) =~= runs_set(old_out).union(piece));
            }
        } else {
            proof {
                assert(piece =~= Set::<u16>::empty());
                assert(runs_set(out@) =~= runs_set(old_out).union(piece));
            }
        }
        proof {
            lemma_runs_prefix_step(ra@, i as int);
            lemma_runs_prefix_step(rb@, j as int);
            if i + 1 < la {
                assert(run_end(ra@[i as int]) + 1 < ra@[i + 1].start);
            }
            if j + 1 < lb {
                assert(run_end(rb@[j as int]) + 1 < rb@[j + 1].start);
            }
        }
        // Advance whichever run ends first (both, on a tie): its successor may still meet
        // the other.
        if a_end < b_end {
            proof {
                assert forall|x: u16| in_run(ra@[i as int], x) && b@.contains(x) implies #[trigger]
                    runs_set(out@).contains(x) by {
                    lemma_covered_upto(rb@, j as int, x, a_end as int);
                    if !in_run(rb@[j as int], x) {
                        assert(a@.contains(x)) by {
                            assert(in_run(ra@[i as int], x));
                        }
                    }
                }
                assert(runs_set(out@) =~= runs_set(ra@.subrange(0, i + 1)).intersect(b@).union(
                    a@.intersect(runs_set(rb@.subrange(0, j as int))),
                ));
            }
            i = i + 1;
        } else if b_end < a_end {
            proof {
                assert forall|x: u16| in_run(rb@[j as int], x) && a@.contains(x) implies #[trigger]
                    runs_set(out@).contains(x) by {
                    lemma_covered_upto(ra@, i as int, x, b_end as int);
                    if !in_run(ra@[i as int], x) {
                        assert(b@.contains(x)) by {
                            assert(in_run(rb@[j as int], x));
                        }
                    }
                }
                assert(runs_set(out@) =~= runs_set(ra@.subrange(0, i as int)).intersect(b@).union(
                    a@.intersect(runs_set(rb@.subrange(0, j + 1))),
                ));
            }
            j = j + 1;
        } else {
            proof {
                assert forall|x: u16| in_run(ra@[i as int], x) && b@.contains(x) implies #[trigger]
                    runs_set(out@).contains(x) by {
                    lemma_covered_upto(rb@, j as int, x, a_end as int);
                    if !in_run(rb@[j as int], x) {
                        assert(a@.contains(x)) by {
                            assert(in_run(ra@[i as int], x));
                        }
                    }
                }
                assert forall|x: u16| in_run(rb@[j as int], x) && a@.contains(x) implies #[trigger]
                    runs_set(out@).contains(x) by {
                    lemma_covered_upto(ra@, i as int, x, b_end as int);
                    if !in_run(ra@[i as int], x) {
                        assert(b@.contains(x)) by {
                            assert(in_run(rb@[j as int], x));
                        }
                    }
                }
                assert(runs_set(out@) =~= runs_set(ra@.subrange(0, i + 1)).intersect(b@).union(
                    a@.intersect(runs_set(rb@.subrange(0, j + 1))),
                ));
            }
            i = i + 1;
            j = j + 1;
        }
    }
    proof {
        if i == la {
            assert(ra@.subrange(0, la as int) =~= ra@);
        } else {
            assert(rb@.subrange(0, lb as int) =~= rb@);
        }
        assert(runs_set(out@) =~= a@.intersect(b@));
    }
    let card = sum_run_counts(&out);
    Container::Run(RunContainer::from_runs(out, card))
}

/// Union of two run lists: runs taken in order of start, coalescing each into the last
/// emitted run when they overlap or touch.
pub fn or_run_run(a: &RunContainer, b: &RunContainer) -> (c: Container)
    requires
        a.wf(),
        b.wf(),
    ensures
        c.inner_wf(),
        c.repr() == Repr::Run,
        c@ == a@.union(b@),
{
    let ra = a.runs();
    let rb = b.runs();
    let la = ra.len();
    let lb = rb.len();
    let mut out: Vec<Run> = Vec::new();
    let mut i: usize = 0;
    let mut j: usize = 0;
    proof {
        lemma_runs_set_empty();
        assert(ra@.subrange(0, 0) =~= Seq::<Run>::empty());
        assert(rb@.subrange(0, 0) =~= Seq::<Run>::empty());
        assert(runs_set(out@) =~= runs_set(ra@.subrange(0, 0)).union(
            runs_set(rb@.subrange(0, 0)),
        ));
    }
    while i < la || j < lb
        invariant
            a.wf(),
            b.wf(),
            ra@ == a.runs_seq(),
            rb@ == b.runs_seq(),
            la == ra@.len(),
            lb == rb@.len(),
            0 <= i <= la,
            0 <= j <= lb,
            runs_wf(out@),
            out@.len() > 0 && i < la ==> out@.last().start <= ra@[i as int].start,
            out@.len() > 0 && j < lb ==> out@.last().start <= rb@[j as int].start,
            runs_set(out@) == runs_set(ra@.subrange(0, i as int)).union(
                runs_set(rb@.subrange(0, j as int)),
            ),
        decreases la - i + lb - j,
    {
        // Take the next run by ascending start across both lists.
        let take_a = i < la && (j >= lb || ra[i].start <= rb[j].start);
        let next = if take_a {
            ra[i]
        } else {
            rb[j]
        };
        proof {
            if take_a {
                lemma_runs_prefix_step(ra@, i as int);
                if i + 1 < la {
                    assert(run_end(ra@[i as int]) + 1 < ra@[i + 1].start);
                }
            } else {
                lemma_runs_prefix_step(rb@, j as int);
                if j + 1 < lb {
                    assert(run_end(rb@[j as int]) + 1 < rb@[j + 1].start);
                }
            }
            lemma_runs_set_single(next);
        }
        let ghost old_out = out@;
        let s = next.start as u32;
        let e = s + next.len as u32;
        let n = out.len();
        let mut merged = false;
        if n > 0 {
            let last = out[n - 1];
            let last_end = last.start as u32 + last.len as u32;
            // Overlapping or merely adjacent (gap 0) runs coalesce into one.
            if s <= last_end + 1 {
                if e > last_end {
                    let m = Run { start: last.start, len: (e - last.start as u32) as u16 };
                    out[n - 1] = m;
                    proof {
                        let k = n - 1;
                        assert(out@ =~= old_out.subrange(0, k) + seq![m] + old_out.subrange(
                            n as int,
                            n as int,
                        ));
                        lemma_splice_set(old_out, k, n as int, seq![m]);
                        lemma_runs_set_single(m);
                        lemma_runs_set_single(last);
                        assert(old_out.subrange(k, n as int) =~= seq![last]);
                        if k > 0 {
                            assert(run_end(old_out[k - 1]) + 1 < last.start);
                        }
                        lemma_splice_wf(old_out, k, n as int, seq![m]);
                        assert(runs_set(out@) =~= runs_set(old_out).union(runs_set(seq![next])));
                    }
                } else {
                    proof {
                        assert(old_out.last() == last);
                        assert(in_run(old_out[n - 1], s as u16));
                        assert forall|x: u16| in_run(next, x) implies #[trigger] runs_set(
                            old_out,
                        ).contains(x) by {
                            assert(in_run(old_out[n - 1], x));
                        }
                        assert(runs_set(out@) =~= runs_set(old_out).union(runs_set(seq![next])));
                    }
                }
                merged = true;
            }
        }
        if !merged {
            out.push(next);
            proof {
                assert(out@ =~= old_out.subrange(0, n as int) + seq![next] + old_out.subrange(
                    n as int,
                    n as int,
                ));
                lemma_splice_set(old_out, n as int, n as int, seq![next]);
                assert(old_out.subrange(n as int, n as int) =~= Seq::<Run>::empty());
                assert(old_out.subrange(0, n as int) =~= old_out);
                lemma_runs_set_empty();
                lemma_splice_wf(old_out, n as int, n as int, seq![next]);
                assert(runs_set(out@) =~= runs_set(old_out).union(runs_set(seq![next])));
            }
        }
        if take_a {
            proof {
                assert(runs_set(out@) =~= runs_set(ra@.subrange(0, i + 1)).union(
                    runs_set(rb@.subrange(0, j as int)),
                ));
            }
            i = i + 1;
        } else {
            proof {
                assert(runs_set(out@) =~= runs_set(ra@.subrange(0, i as int)).union(
                    runs_set(rb@.subrange(0, j + 1)),
                ));
            }
            j = j + 1;
        }
    }
    proof {
        assert(ra@.subrange(0, la as int) =~= ra@);
        assert(rb@.subrange(0, lb as int) =~= rb@);
    }
    let card = sum_run_counts(&out);
    Container::Run(RunContainer::from_runs(out, card))
}

} // verus!
