//! `RunContainer`: sorted, non-overlapping, non-adjacent runs of consecutive values.

use vstd::prelude::*;
use crate::counting::{
    count_below, lemma_count_absent, lemma_count_present, lemma_len_bound, lemma_len_is_count,
    num_runs_of, run_starts,
};
use super::array::ArrayContainer;
use super::bitmap::BitmapContainer;
use crate::bits::{bit_of, lemma_bit_ops, lemma_lowest_bit, lemma_zero_bits};

verus! {

/// The values `start ..= start + len`; `len` is the count minus one, so a full
/// 65536-value run fits.
#[derive(Clone, Copy, Debug, PartialEq, Eq, Structural)]
pub struct Run {
    pub start: u16,
    pub len: u16,
}

/// Last value of a run, as an integer.
pub open spec fn run_end(r: Run) -> int {
    r.start as int + r.len as int
}

/// `v` lies in run `r`.
pub open spec fn in_run(r: Run, v: u16) -> bool {
    r.start <= v && v as int <= run_end(r)
}

/// The values covered by a list of runs.
pub open spec fn runs_set(rs: Seq<Run>) -> Set<u16> {
    Set::new(|v: u16| exists|i: int| 0 <= i < rs.len() && #[trigger] in_run(rs[i], v))
}

/// Runs stay inside the `u16` range, are sorted, and are separated by at least one
/// absent value.
pub open spec fn runs_wf(rs: Seq<Run>) -> bool {
    &&& forall|i: int| 0 <= i < rs.len() ==> run_end(#[trigger] rs[i]) <= 65535
    &&& forall|i: int, j: int|
        0 <= i < j < rs.len() ==> run_end(#[trigger] rs[i]) + 1 < (#[trigger] rs[j]).start
}

/// Sum of the value counts `len + 1` of the runs.
pub open spec fn sum_counts(rs: Seq<Run>) -> nat
    decreases rs.len(),
{
    if rs.len() == 0 {
        0
    } else {
        sum_counts(rs.drop_last()) + rs.last().len as nat + 1
    }
}

/// The set of a concatenation is the union of the sets.
pub proof fn lemma_runs_set_concat(p: Seq<Run>, q: Seq<Run>)
    ensures
        runs_set(p + q) =~= runs_set(p).union(runs_set(q)),
{
    let pq = p + q;
    assert forall|x: u16| runs_set(pq).contains(x) == runs_set(p).union(runs_set(q)).contains(x) by {
        if runs_set(pq).contains(x) {
            let i = choose|i: int| 0 <= i < pq.len() && #[trigger] in_run(pq[i], x);
            if i < p.len() {
                assert(in_run(p[i], x));
            } else {
                assert(in_run(q[i - p.len()], x));
            }
        }
        if runs_set(p).contains(x) {
            let i = choose|i: int| 0 <= i < p.len() && #[trigger] in_run(p[i], x);
            assert(in_run(pq[i], x));
        }
        if runs_set(q).contains(x) {
            let i = choose|i: int| 0 <= i < q.len() && #[trigger] in_run(q[i], x);
            assert(in_run(pq[i + p.len()], x));
        }
    }
}

/// The set of a single run.
pub proof fn lemma_runs_set_single(r: Run)
    ensures
        forall|x: u16| #[trigger] runs_set(seq![r]).contains(x) == in_run(r, x),
{
    assert forall|x: u16| #[trigger] runs_set(seq![r]).contains(x) == in_run(r, x) by {
        if in_run(r, x) {
            assert(in_run(seq![r][0], x));
        }
    }
}

/// The empty list covers nothing.
pub proof fn lemma_runs_set_empty()
    ensures
        runs_set(Seq::<Run>::empty()) =~= Set::<u16>::empty(),
{
}

/// In well-formed runs, a value at or below the end of run `k` and above the end of
/// run `k - 1` is covered only if it lies in run `k`.
pub proof fn lemma_runs_locate(rs: Seq<Run>, k: int, x: u16)
    requires
        runs_wf(rs),
        0 <= k <= rs.len(),
        k > 0 ==> run_end(rs[k - 1]) < x,
        k < rs.len() ==> x < rs[k].start,
    ensures
        !runs_set(rs).contains(x),
{
    if runs_set(rs).contains(x) {
        let i = choose|i: int| 0 <= i < rs.len() && #[trigger] in_run(rs[i], x);
        if i < k {
            if i < k - 1 {
                assert(run_end(rs[i]) + 1 < rs[k - 1].start);
            }
        } else {
            if i > k {
                assert(run_end(rs[k]) + 1 < rs[i].start);
            }
        }
    }
}

/// The number of covered values and the number of runs of the covered set.
pub proof fn lemma_runs_counts(rs: Seq<Run>)
    requires
        runs_wf(rs),
    ensures
        runs_set(rs).len() == sum_counts(rs),
        num_runs_of(runs_set(rs)) == rs.len(),
        rs.len() <= 65536,
{
    let s = runs_set(rs);
    let st = run_starts(s);
    lemma_runs_counts_prefix(rs, rs.len() as int);
    assert(rs.subrange(0, rs.len() as int) =~= rs);
    let n: nat = if rs.len() == 0 {
        0
    } else {
        (run_end(rs[rs.len() - 1]) + 1) as nat
    };
    assert forall|v: u16| n <= v < 65536 implies !s.contains(v) by {
        lemma_runs_locate(rs, rs.len() as int, v);
    }
    lemma_count_absent(s, n, 65536);
    lemma_count_absent(st, n, 65536);
    lemma_len_is_count(s);
    lemma_len_is_count(st);
    lemma_len_bound(st);
}

proof fn lemma_runs_counts_prefix(rs: Seq<Run>, k: int)
    requires
        runs_wf(rs),
        0 <= k <= rs.len(),
    ensures
        ({
            let n: nat = if k == 0 {
                0
            } else {
                (run_end(rs[k - 1]) + 1) as nat
            };
            &&& count_below(runs_set(rs), n) == sum_counts(rs.subrange(0, k))
            &&& count_below(run_starts(runs_set(rs)), n) == k
        }),
    decreases k,
{
    let s = runs_set(rs);
    let st = run_starts(s);
    if k > 0 {
        lemma_runs_counts_prefix(rs, k - 1);
        let p: nat = if k == 1 {
            0
        } else {
            (run_end(rs[k - 2]) + 1) as nat
        };
        let r = rs[k - 1];
        let a = r.start as nat;
        let e = run_end(r) as nat;
        assert forall|v: u16| p <= v < a implies !s.contains(v) by {
            lemma_runs_locate(rs, k - 1, v);
        }
        lemma_count_absent(s, p, a);
        lemma_count_absent(st, p, a);
        assert forall|v: u16| a <= v < e + 1 implies s.contains(v) by {
            assert(in_run(rs[k - 1], v));
        }
        lemma_count_present(s, a, e + 1);
        assert(st.contains(r.start)) by {
            assert(in_run(rs[k - 1], r.start));
            if r.start > 0 {
                lemma_runs_locate(rs, k - 1, (r.start - 1) as u16);
            }
        }
        assert(count_below(st, a + 1) == count_below(st, a) + 1);
        assert forall|v: u16| a + 1 <= v < e + 1 implies !st.contains(v) by {
            assert(in_run(rs[k - 1], (v - 1) as u16));
        }
        lemma_count_absent(st, a + 1, e + 1);
        assert(rs.subrange(0, k).drop_last() =~= rs.subrange(0, k - 1));
    }
}

/// Replacing the runs `a..b` of `rs` by `seg`: the covered set is assembled from the
/// three pieces, before and after.
pub proof fn lemma_splice_set(rs: Seq<Run>, a: int, b: int, seg: Seq<Run>)
    requires
        0 <= a <= b <= rs.len(),
    ensures
        runs_set(rs.subrange(0, a) + seg + rs.subrange(b, rs.len() as int)) =~= runs_set(
            rs.subrange(0, a),
        ).union(runs_set(seg)).union(runs_set(rs.subrange(b, rs.len() as int))),
        runs_set(rs) =~= runs_set(rs.subrange(0, a)).union(runs_set(rs.subrange(a, b))).union(
            runs_set(rs.subrange(b, rs.len() as int)),
        ),
{
    let pre = rs.subrange(0, a);
    let mid = rs.subrange(a, b);
    let post = rs.subrange(b, rs.len() as int);
    lemma_runs_set_concat(pre, seg);
    lemma_runs_set_concat(pre + seg, post);
    lemma_runs_set_concat(pre, mid);
    lemma_runs_set_concat(pre + mid, post);
    assert(pre + mid + post =~= rs);
}

/// Every value covered by the runs `a..b` lies between the start of run `a` and the end
/// of run `b - 1`.
pub proof fn lemma_sub_bounds(rs: Seq<Run>, a: int, b: int, x: u16)
    requires
        runs_wf(rs),
        0 <= a < b <= rs.len(),
        runs_set(rs.subrange(a, b)).contains(x),
    ensures
        rs[a].start <= x,
        x as int <= run_end(rs[b - 1]),
{
    let sub = rs.subrange(a, b);
    let i = choose|i: int| 0 <= i < sub.len() && #[trigger] in_run(sub[i], x);
    assert(sub[i] == rs[a + i]);
    if i > 0 {
        assert(run_end(rs[a]) + 1 < rs[a + i].start);
    }
    if a + i < b - 1 {
        assert(run_end(rs[a + i]) + 1 < rs[b - 1].start);
    }
}

/// Replacing the runs `a..b` of well-formed runs by well-formed `seg` that fits between
/// its neighbours keeps the runs well formed.
pub proof fn lemma_splice_wf(rs: Seq<Run>, a: int, b: int, seg: Seq<Run>)
    requires
        runs_wf(rs),
        runs_wf(seg),
        0 <= a <= b <= rs.len(),
        seg.len() > 0 && a > 0 ==> run_end(rs[a - 1]) + 1 < seg[0].start,
        seg.len() > 0 && b < rs.len() ==> run_end(seg.last()) + 1 < rs[b].start,
        seg.len() == 0 && 0 < a && b < rs.len() ==> run_end(rs[a - 1]) + 1 < rs[b].start,
    ensures
        runs_wf(rs.subrange(0, a) + seg + rs.subrange(b, rs.len() as int)),
{
    let t = rs.subrange(0, a) + seg + rs.subrange(b, rs.len() as int);
    let sl = seg.len() as int;
    assert forall|i: int| 0 <= i < t.len() implies run_end(#[trigger] t[i]) <= 65535 by {
        if i < a {
            assert(t[i] == rs[i]);
        } else if i < a + sl {
            assert(t[i] == seg[i - a]);
        } else {
            assert(t[i] == rs[i - a - sl + b]);
        }
    }
    if sl > 0 {
        assert(seg[0].start as int <= run_end(seg[sl - 1])) by {
            if sl > 1 {
                assert(run_end(seg[0]) + 1 < seg[sl - 1].start);
            }
        }
    }
    assert forall|i: int, j: int| 0 <= i < j < t.len() implies run_end(#[trigger] t[i]) + 1 < (
    #[trigger] t[j]).start by {
        if j < a {
            assert(t[i] == rs[i] && t[j] == rs[j]);
        } else if j < a + sl {
            assert(t[j] == seg[j - a]);
            if i < a {
                assert(t[i] == rs[i]);
                if i < a - 1 {
                    assert(run_end(rs[i]) + 1 < rs[a - 1].start);
                }
                if j - a > 0 {
                    assert(run_end(seg[0]) + 1 < seg[j - a].start);
                }
            } else {
                assert(t[i] == seg[i - a]);
            }
        } else {
            assert(t[j] == rs[j - a - sl + b]);
            if i < a {
                assert(t[i] == rs[i]);
                if i < a - 1 {
                    assert(run_end(rs[i]) + 1 < rs[a - 1].start);
                }
                if j - a - sl + b > b {
                    assert(run_end(rs[b]) + 1 < rs[j - a - sl + b].start);
                }
                if sl > 0 {
                    if 0 < sl - 1 {
                        assert(run_end(seg[0]) + 1 < seg[sl - 1].start);
                    }
                } else if i < a - 1 {
                } 
                if sl == 0 {
                    assert(run_end(rs[a - 1]) + 1 < rs[b].start);
                }
            } else if i < a + sl {
                assert(t[i] == seg[i - a]);
                if i - a < sl - 1 {
                    assert(run_end(seg[i - a]) + 1 < seg[sl - 1].start);
                }
                if j - a - sl + b > b {
                    assert(run_end(rs[b]) + 1 < rs[j - a - sl + b].start);
                }
            } else {
                assert(t[i] == rs[i - a - sl + b]);
            }
        }
    }
}

/// Appends `v`, above every covered value, to the runs: it extends the last run when
/// adjacent to it, else starts a new one.
fn append_value(runs: &mut Vec<Run>, v: u16)
    requires
        runs_wf(old(runs)@),
        old(runs)@.len() > 0 ==> run_end(old(runs)@.last()) < v,
    ensures
        runs_wf(final(runs)@),
        runs_set(final(runs)@) == runs_set(old(runs)@).insert(v),
        final(runs)@.len() > 0,
        run_end(final(runs)@.last()) == v,
        final(runs)@.len() <= old(runs)@.len() + 1,
{
    let ghost rs = runs@;
    let n = runs.len();
    if n > 0 {
        let last = runs[n - 1];
        let end = last.start as u32 + last.len as u32;
        if v as u32 == end + 1 {
            let m = Run { start: last.start, len: last.len + 1 };
            runs[n - 1] = m;
            proof {
                let seg = seq![m];
                let a = n - 1;
                assert(runs@ =~= rs.subrange(0, a) + seg + rs.subrange(n as int, n as int));
                lemma_splice_set(rs, a, n as int, seg);
                lemma_runs_set_single(m);
                assert(rs.subrange(a, n as int) =~= seq![last]);
                lemma_runs_set_single(last);
                lemma_splice_wf(rs, a, n as int, seg);
                assert(runs_set(runs@) =~= runs_set(rs).insert(v));
            }
            return;
        }
    }
    let m = Run { start: v, len: 0 };
    runs.push(m);
    proof {
        let seg = seq![m];
        assert(runs@ =~= rs.subrange(0, n as int) + seg + rs.subrange(n as int, n as int));
        lemma_splice_set(rs, n as int, n as int, seg);
        lemma_runs_set_single(m);
        assert(rs.subrange(n as int, n as int) =~= Seq::<Run>::empty());
        lemma_runs_set_empty();
        lemma_splice_wf(rs, n as int, n as int, seg);
        assert(runs_set(runs@) =~= runs_set(rs).insert(v));
    }
}

/// The runs `0..k + 1` cover those of `0..k` and run `k`.
pub proof fn lemma_runs_prefix_step(rs: Seq<Run>, k: int)
    requires
        0 <= k < rs.len(),
    ensures
        forall|x: u16| #[trigger] runs_set(rs.subrange(0, k + 1)).contains(x) == (runs_set(
            rs.subrange(0, k),
        ).contains(x) || in_run(rs[k], x)),
{
    assert(rs.subrange(0, k + 1) =~= rs.subrange(0, k) + seq![rs[k]]);
    lemma_runs_set_concat(rs.subrange(0, k), seq![rs[k]]);
    lemma_runs_set_single(rs[k]);
}

#[derive(Debug, PartialEq, Eq)]
pub struct RunContainer {
    runs: Vec<Run>,
    cardinality: u32,
}

impl View for RunContainer {
    type V = Set<u16>;

    /// The set of values covered by the runs.
    open spec fn view(&self) -> Set<u16> {
        runs_set(self.runs_seq())
    }
}

impl Clone for RunContainer {
    fn clone(&self) -> (r: Self)
        ensures
            r.runs_seq() == self.runs_seq(),
            r.cached() == self.cached(),
    {
        let runs = self.runs.clone();
        proof {
            assert(runs@ =~= self.runs@);
        }
        RunContainer { runs, cardinality: self.cardinality }
    }
}

impl Default for RunContainer {
    fn default() -> (r: Self)
        ensures
            r.wf(),
            r@ == Set::<u16>::empty(),
    {
        RunContainer::new()
    }
}

impl RunContainer {
    /// The runs, in order.
    pub closed spec fn runs_seq(&self) -> Seq<Run> {
        self.runs@
    }

    /// The cached cardinality.
    pub closed spec fn cached(&self) -> u32 {
        self.cardinality
    }

    /// Well-formed runs, and the cached cardinality is the size of the set.
    pub open spec fn wf(&self) -> bool {
        &&& runs_wf(self.runs_seq())
        &&& self.cached() == self@.len()
    }

    pub fn new() -> (r: Self)
        ensures
            r.wf(),
            r@ == Set::<u16>::empty(),
            r.runs_seq() == Seq::<Run>::empty(),
    {
        let r = RunContainer { runs: Vec::new(), cardinality: 0 };
        proof {
            assert(r@ =~= Set::<u16>::empty());
        }
        r
    }

    /// Index of the first run that starts above `v`.
    fn partition(&self, v: u16) -> (idx: usize)
        requires
            runs_wf(self.runs_seq()),
        ensures
            idx <= self.runs_seq().len(),
            forall|i: int| 0 <= i < idx ==> (#[trigger] self.runs_seq()[i]).start <= v,
            forall|i: int|
                idx <= i < self.runs_seq().len() ==> (#[trigger] self.runs_seq()[i]).start > v,
    {
        let mut lo: usize = 0;
        let mut hi: usize = self.runs.len();
        while lo < hi
            invariant
                runs_wf(self.runs_seq()),
                0 <= lo <= hi <= self.runs_seq().len(),
                forall|i: int| 0 <= i < lo ==> (#[trigger] self.runs_seq()[i]).start <= v,
                forall|i: int|
                    hi <= i < self.runs_seq().len() ==> (#[trigger] self.runs_seq()[i]).start > v,
            decreases hi - lo,
        {
            let mid = lo + (hi - lo) / 2;
            if self.runs[mid].start <= v {
                proof {
                    assert forall|i: int| 0 <= i < mid + 1 implies (
                    #[trigger] self.runs_seq()[i]).start <= v by {
                        if i < mid {
                            assert(run_end(self.runs_seq()[i]) + 1 < self.runs_seq()[mid as int].start);
                        }
                    }
                }
                lo = mid + 1;
            } else {
                proof {
                    assert forall|i: int| mid <= i < self.runs_seq().len() implies (
                    #[trigger] self.runs_seq()[i]).start > v by {
                        if i > mid {
                            assert(run_end(self.runs_seq()[mid as int]) + 1 < self.runs_seq()[i].start);
                        }
                    }
                }
                hi = mid;
            }
        }
        lo
    }

    pub fn contains(&self, v: u16) -> (b: bool)
        requires
            self.wf(),
        ensures
            b == self@.contains(v),
    {
        let idx = self.partition(v);
        if idx == 0 {
            proof {
                lemma_runs_locate(self.runs_seq(), 0, v);
            }
            return false;
        }
        let run = self.runs[idx - 1];
        let r = v as u32 <= run.start as u32 + run.len as u32;
        proof {
            if r {
                assert(in_run(self.runs_seq()[idx - 1], v));
            } else {
                lemma_runs_locate(self.runs_seq(), idx as int, v);
            }
        }
        r
    }

    /// Inserts `v`, extending, merging or adding runs; returns whether it was absent.
    #[verifier::spinoff_prover]
    #[verifier::rlimit(40)]
    pub fn insert(&mut self, v: u16) -> (added: bool)
        requires
            old(self).wf(),
        ensures
            final(self).wf(),
            final(self)@ == old(self)@.insert(v),
            added == !old(self)@.contains(v),
    {
        let ghost rs = self.runs_seq();
        let ghost n = rs.len() as int;
        let idx = self.partition(v);
        let len = self.runs.len();
        if idx > 0 {
            let prev = self.runs[idx - 1];
            let prev_end = prev.start as u32 + prev.len as u32;
            if (v as u32) <= prev_end {
                proof {
                    assert(in_run(rs[idx - 1], v));
                }
                return false;
            }
            if v as u32 == prev_end + 1 {
                proof {
                    lemma_runs_locate(rs, idx as int, v);
                    lemma_len_bound(self@.insert(v));
                    lemma_len_bound(self@);
                }
                if idx < len && self.runs[idx].start as u32 == v as u32 + 1 {
                    // `v` bridges `prev` and the next run: they become one.
                    let next = self.runs[idx];
                    let merged = prev.len as u32 + next.len as u32 + 2;
                    let m = Run { start: prev.start, len: merged as u16 };
                    self.runs[idx - 1] = m;
                    self.runs.remove(idx);
                    proof {
                        let seg = seq![m];
                        let a = idx - 1;
                        let b = idx + 1;
                        assert(self.runs_seq() =~= rs.subrange(0, a) + seg + rs.subrange(b, n));
                        lemma_splice_set(rs, a, b, seg);
                        lemma_runs_set_single(m);
                        assert(rs.subrange(a, b) =~= seq![prev] + seq![next]);
                        lemma_runs_set_concat(seq![prev], seq![next]);
                        lemma_runs_set_single(prev);
                        lemma_runs_set_single(next);
                        assert(runs_set(seg) =~= runs_set(rs.subrange(a, b)).insert(v));
                        if b < n {
                            assert(run_end(next) + 1 < rs[b].start);
                        }
                        lemma_splice_wf(rs, a, b, seg);
                        assert(self@ =~= old(self)@.insert(v));
                    }
                } else {
                    let m = Run { start: prev.start, len: prev.len + 1 };
                    self.runs[idx - 1] = m;
                    proof {
                        let seg = seq![m];
                        let a = idx - 1;
                        let b = idx as int;
                        assert(self.runs_seq() =~= rs.subrange(0, a) + seg + rs.subrange(b, n));
                        lemma_splice_set(rs, a, b, seg);
                        lemma_runs_set_single(m);
                        assert(rs.subrange(a, b) =~= seq![prev]);
                        lemma_runs_set_single(prev);
                        assert(runs_set(seg) =~= runs_set(rs.subrange(a, b)).insert(v));
                        lemma_splice_wf(rs, a, b, seg);
                        assert(self@ =~= old(self)@.insert(v));
                    }
                }
                self.cardinality = self.cardinality + 1;
                return true;
            }
        }
        proof {
            lemma_runs_locate(rs, idx as int, v);
            lemma_len_bound(self@.insert(v));
            lemma_len_bound(self@);
        }
        if idx < len && v as u32 + 1 == self.runs[idx].start as u32 {
            // `v` sits just below the next run: grow it downward.
            let next = self.runs[idx];
            let m = Run { start: next.start - 1, len: next.len + 1 };
            self.runs[idx] = m;
            proof {
                let seg = seq![m];
                let a = idx as int;
                let b = idx + 1;
                assert(self.runs_seq() =~= rs.subrange(0, a) + seg + rs.subrange(b, n));
                lemma_splice_set(rs, a, b, seg);
                lemma_runs_set_single(m);
                assert(rs.subrange(a, b) =~= seq![next]);
                lemma_runs_set_single(next);
                assert(runs_set(seg) =~= runs_set(rs.subrange(a, b)).insert(v));
                lemma_splice_wf(rs, a, b, seg);
                assert(self@ =~= old(self)@.insert(v));
            }
        } else {
            // An isolated value: a fresh single-value run at the partition point.
            let m = Run { start: v, len: 0 };
            self.runs.insert(idx, m);
            proof {
                let seg = seq![m];
                let a = idx as int;
                assert(self.runs_seq() =~= rs.subrange(0, a) + seg + rs.subrange(a, n));
                lemma_splice_set(rs, a, a, seg);
                lemma_runs_set_single(m);
                assert(rs.subrange(a, a) =~= Seq::<Run>::empty());
                lemma_runs_set_empty();
                assert(runs_set(seg) =~= runs_set(rs.subrange(a, a)).insert(v));
                lemma_splice_wf(rs, a, a, seg);
                assert(self@ =~= old(self)@.insert(v));
            }
        }
        self.cardinality = self.cardinality + 1;
        true
    }

    /// Removes `v`, shrinking, splitting or dropping its run; returns whether it was present.
    #[verifier::spinoff_prover]
    #[verifier::rlimit(40)]
    pub fn remove(&mut self, v: u16) -> (removed: bool)
        requires
            old(self).wf(),
        ensures
            final(self).wf(),
            final(self)@ == old(self)@.remove(v),
            removed == old(self)@.contains(v),
    {
        let ghost rs = self.runs_seq();
        let ghost n = rs.len() as int;
        let idx = self.partition(v);
        if idx == 0 {
            proof {
                lemma_runs_locate(rs, 0, v);
            }
            return false;
        }
        let i = idx - 1;
        let run = self.runs[i];
        let end = run.start as u32 + run.len as u32;
        if (v as u32) > end {
            proof {
                lemma_runs_locate(rs, idx as int, v);
            }
            return false;
        }
        proof {
            assert(in_run(rs[i as int], v));
            lemma_len_bound(old(self)@);
            assert(rs.subrange(i as int, idx as int) =~= seq![run]);
            lemma_runs_set_single(run);
            if runs_set(rs.subrange(0, i as int)).contains(v) {
                lemma_sub_bounds(rs, 0, i as int, v);
                assert(run_end(rs[i - 1]) + 1 < rs[i as int].start);
            }
            if runs_set(rs.subrange(idx as int, n)).contains(v) {
                lemma_sub_bounds(rs, idx as int, n, v);
            }
        }
        let ghost a = i as int;
        let ghost b = idx as int;
        if run.len == 0 {
            self.runs.remove(i);
            proof {
                let seg = Seq::<Run>::empty();
                assert(self.runs_seq() =~= rs.subrange(0, a) + seg + rs.subrange(b, n));
                lemma_splice_set(rs, a, b, seg);
                lemma_runs_set_empty();
                if 0 < a && b < n {
                    assert(run_end(rs[a - 1]) + 1 < rs[b].start);
                }
                lemma_splice_wf(rs, a, b, seg);
                assert(self@ =~= old(self)@.remove(v));
            }
        } else if v == run.start {
            let m = Run { start: run.start + 1, len: run.len - 1 };
            self.runs[i] = m;
            proof {
                let seg = seq![m];
                assert(self.runs_seq() =~= rs.subrange(0, a) + seg + rs.subrange(b, n));
                lemma_splice_set(rs, a, b, seg);
                lemma_runs_set_single(m);
                lemma_splice_wf(rs, a, b, seg);
                assert(self@ =~= old(self)@.remove(v));
            }
        } else if v as u32 == end {
            let m = Run { start: run.start, len: run.len - 1 };
            self.runs[i] = m;
            proof {
                let seg = seq![m];
                assert(self.runs_seq() =~= rs.subrange(0, a) + seg + rs.subrange(b, n));
                lemma_splice_set(rs, a, b, seg);
                lemma_runs_set_single(m);
                lemma_splice_wf(rs, a, b, seg);
                assert(self@ =~= old(self)@.remove(v));
            }
        } else {
            // Interior removal splits the run: [start, v - 1] then [v + 1, end].
            let left_len = (v as u32 - run.start as u32 - 1) as u16;
            let right_start = v + 1;
            let right_len = (end - right_start as u32) as u16;
            let left = Run { start: run.start, len: left_len };
            let right = Run { start: right_start, len: right_len };
            self.runs[i] = left;
            self.runs.insert(i + 1, right);
            proof {
                let seg = seq![left, right];
                assert(self.runs_seq() =~= rs.subrange(0, a) + seg + rs.subrange(b, n));
                lemma_splice_set(rs, a, b, seg);
                assert(seg =~= seq![left] + seq![right]);
                lemma_runs_set_concat(seq![left], seq![right]);
                lemma_runs_set_single(left);
                lemma_runs_set_single(right);
                assert(runs_wf(seg));
                lemma_splice_wf(rs, a, b, seg);
                assert(self@ =~= old(self)@.remove(v));
            }
        }
        self.cardinality = self.cardinality - 1;
        true
    }

    pub fn cardinality(&self) -> (c: u32)
        requires
            self.wf(),
        ensures
            c == self@.len(),
    {
        self.cardinality
    }

    pub fn is_empty(&self) -> (b: bool)
        requires
            self.wf(),
        ensures
            b == (self@.len() == 0),
    {
        self.cardinality == 0
    }

    pub fn num_runs(&self) -> (r: u32)
        requires
            self.wf(),
        ensures
            r == num_runs_of(self@),
            r == self.runs_seq().len(),
            r <= 65536,
    {
        proof {
            lemma_runs_counts(self.runs_seq());
        }
        self.runs.len() as u32
    }

    /// Builds the runs of the values of an array container.
    pub fn from_array(a: &ArrayContainer) -> (r: Self)
        requires
            a.wf(),
        ensures
            r.wf(),
            r@ == a@,
    {
        let vals = a.as_slice();
        let n = vals.len();
        let mut runs: Vec<Run> = Vec::new();
        let mut cardinality: u32 = 0;
        let mut i: usize = 0;
        proof {
            a.lemma_len();
            assert(runs_set(runs@) =~= vals@.subrange(0, 0).to_set());
        }
        while i < n
            invariant
                a.wf(),
                vals@ == a.seq(),
                n == vals@.len(),
                n <= 65536,
                0 <= i <= n,
                runs_wf(runs@),
                runs_set(runs@) == vals@.subrange(0, i as int).to_set(),
                i > 0 ==> runs@.len() > 0 && run_end(runs@.last()) == vals@[i - 1],
                i == 0 ==> runs@.len() == 0,
                cardinality == i,
            decreases n - i,
        {
            let v = vals[i];
            proof {
                if i > 0 {
                    assert(vals@[i - 1] < vals@[i as int]);
                }
            }
            append_value(&mut runs, v);
            proof {
                assert(vals@.subrange(0, i + 1) =~= vals@.subrange(0, i as int).push(v));
                vals@.subrange(0, i as int).lemma_push_to_set_commute(v);
            }
            cardinality = cardinality + 1;
            i = i + 1;
        }
        proof {
            assert(vals@.subrange(0, n as int) =~= vals@);
        }
        RunContainer { runs, cardinality }
    }

    /// Builds the runs of the values of a bitmap container.
    pub fn from_bitmap(b: &BitmapContainer) -> (r: Self)
        requires
            b.wf(),
        ensures
            r.wf(),
            r@ == b@,
    {
        let words = b.words();
        let mut runs: Vec<Run> = Vec::new();
        let mut cardinality: u32 = 0;
        let mut k: usize = 0;
        proof {
            lemma_bit_ops();
            lemma_runs_set_empty();
        }
        while k < 1024
            invariant
                b.wf(),
                words@ == b.words_seq(),
                0 <= k <= 1024,
                runs_wf(runs@),
                forall|x: u16| #[trigger]
                    runs_set(runs@).contains(x) == (b@.contains(x) && (x as int) < 64 * k),
                runs@.len() > 0 ==> run_end(runs@.last()) < 64 * k,
                cardinality == runs_set(runs@).len(),
            decreases 1024 - k,
        {
            let word = words[k];
            let mut w = word;
            // Visit the set bits from the lowest up, clearing each once taken.
            while w != 0
                invariant
                    b.wf(),
                    words@ == b.words_seq(),
                    0 <= k < 1024,
                    word == b.words_seq()[k as int],
                    forall|j: u64| j < 64 && #[trigger] bit_of(w, j) ==> bit_of(word, j),
                    runs_wf(runs@),
                    forall|x: u16| #[trigger]
                        runs_set(runs@).contains(x) == (b@.contains(x) && ((x as int) < 64 * k || (
                        x as int / 64 == k && !bit_of(w, (x as int % 64) as u64)))),
                    forall|j: u64|
                        j < 64 && #[trigger] bit_of(w, j) ==> (runs@.len() > 0 ==> run_end(
                            runs@.last(),
                        ) < 64 * k + j),
                    runs@.len() > 0 ==> run_end(runs@.last()) < 64 * k + 64,
                    cardinality == runs_set(runs@).len(),
                decreases w,
            {
                proof {
                    lemma_lowest_bit(w);
                }
                let bit = w.trailing_zeros();
                let x = (k as u16) * 64 + (bit as u16);
                proof {
                    assert(x as int / 64 == k && x as int % 64 == bit);
                    assert(b@.contains(x) == bit_of(word, bit as u64));
                }
                let ghost before = runs_set(runs@);
                proof {
                    lemma_len_bound(before);
                    lemma_len_bound(before.insert(x));
                    assert(!before.contains(x));
                }
                append_value(&mut runs, x);
                cardinality = cardinality + 1;
                w = w & (w - 1);
                proof {
                    assert forall|y: u16| #[trigger]
                        runs_set(runs@).contains(y) == (b@.contains(y) && ((y as int) < 64 * k || (
                        y as int / 64 == k && !bit_of(w, (y as int % 64) as u64)))) by {
                        if y as int / 64 == k {
                            assert(0 <= y as int % 64 < 64);
                            if y as int % 64 == bit {
                                assert(y == x);
                            }
                        }
                    }
                }
            }
            proof {
                lemma_zero_bits();
                assert forall|y: u16| #[trigger]
                    runs_set(runs@).contains(y) == (b@.contains(y) && (y as int) < 64 * (k + 1)) by {
                    if (y as int) >= 64 * k && (y as int) < 64 * (k + 1) {
                        assert(y as int / 64 == k);
                    }
                }
            }
            k = k + 1;
        }
        proof {
            assert(runs_set(runs@) =~= b@);
        }
        RunContainer { runs, cardinality }
    }

    /// Lists the values, in increasing order, as an array container.
    pub fn to_array(&self) -> (r: ArrayContainer)
        requires
            self.wf(),
        ensures
            r.wf(),
            r@ == self@,
    {
        let mut a = ArrayContainer::new();
        let ghost rs = self.runs_seq();
        let mut k: usize = 0;
        proof {
            assert(rs.subrange(0, 0) =~= Seq::<Run>::empty());
            lemma_runs_set_empty();
        }
        while k < self.runs.len()
            invariant
                self.wf(),
                rs == self.runs_seq(),
                0 <= k <= rs.len(),
                a.wf(),
                a@ == runs_set(rs.subrange(0, k as int)),
            decreases rs.len() - k,
        {
            let run = self.runs[k];
            let end = run.start as u32 + run.len as u32;
            let mut v = run.start as u32;
            proof {
                lemma_runs_prefix_step(rs, k as int);
            }
            while v <= end
                invariant
                    self.wf(),
                    rs == self.runs_seq(),
                    0 <= k < rs.len(),
                    run == rs[k as int],
                    end == run_end(run),
                    end <= 65535,
                    run.start <= v <= end + 1,
                    a.wf(),
                    forall|x: u16| #[trigger]
                        a@.contains(x) == (runs_set(rs.subrange(0, k as int)).contains(x) || (
                        run.start <= x && (x as int) < v)),
                    forall|x: u16| #[trigger]
                        runs_set(rs.subrange(0, k + 1)).contains(x) == (runs_set(
                            rs.subrange(0, k as int),
                        ).contains(x) || in_run(rs[k as int], x)),
                decreases end + 1 - v,
            {
                a.insert(v as u16);
                v = v + 1;
            }
            proof {
                assert(a@ =~= runs_set(rs.subrange(0, k + 1)));
            }
            k = k + 1;
        }
        proof {
            assert(rs.subrange(0, rs.len() as int) =~= rs);
        }
        a
    }

    /// Sets the bits of every covered value in a fresh bitmap container.
    pub fn to_bitmap(&self) -> (r: BitmapContainer)
        requires
            self.wf(),
        ensures
            r.wf(),
            r@ == self@,
    {
        let mut b = BitmapContainer::new();
        let ghost rs = self.runs_seq();
        let mut k: usize = 0;
        proof {
            assert(rs.subrange(0, 0) =~= Seq::<Run>::empty());
            lemma_runs_set_empty();
            assert(b@ =~= runs_set(rs.subrange(0, 0)));
        }
        while k < self.runs.len()
            invariant
                self.wf(),
                rs == self.runs_seq(),
                0 <= k <= rs.len(),
                b.wf(),
                b@ == runs_set(rs.subrange(0, k as int)),
            decreases rs.len() - k,
        {
            let run = self.runs[k];
            let end = run.start as u32 + run.len as u32;
            let mut v = run.start as u32;
            proof {
                lemma_runs_prefix_step(rs, k as int);
            }
            while v <= end
                invariant
                    self.wf(),
                    rs == self.runs_seq(),
                    0 <= k < rs.len(),
                    run == rs[k as int],
                    end == run_end(run),
                    end <= 65535,
                    run.start <= v <= end + 1,
                    b.wf(),
                    forall|x: u16| #[trigger]
                        b@.contains(x) == (runs_set(rs.subrange(0, k as int)).contains(x) || (
                        run.start <= x && (x as int) < v)),
                    forall|x: u16| #[trigger]
                        runs_set(rs.subrange(0, k + 1)).contains(x) == (runs_set(
                            rs.subrange(0, k as int),
                        ).contains(x) || in_run(rs[k as int], x)),
                decreases end + 1 - v,
            {
                b.insert(v as u16);
                v = v + 1;
            }
            proof {
                assert(b@ =~= runs_set(rs.subrange(0, k + 1)));
            }
            k = k + 1;
        }
        proof {
            assert(rs.subrange(0, rs.len() as int) =~= rs);
        }
        b
    }

    /// The runs, for the set-operation kernels.
    pub fn runs(&self) -> (r: &Vec<Run>)
        ensures
            r@ == self.runs_seq(),
    {
        &self.runs
    }

    /// Builds a container from well-formed runs and their total count.
    pub(crate) fn from_runs(runs: Vec<Run>, cardinality: u32) -> (r: Self)
        requires
            runs_wf(runs@),
            cardinality == sum_counts(runs@),
        ensures
            r.wf(),
            r.runs_seq() == runs@,
    {
        proof {
            lemma_runs_counts(runs@);
        }
        RunContainer { runs, cardinality }
    }
}

/// A value of well-formed runs lies in the first run or in the rest, and the rest lies
/// beyond the first run and the gap after it.
proof fn lemma_runs_head(p: Seq<Run>, v: u16)
    requires
        runs_wf(p),
        p.len() > 0,
    ensures
        runs_wf(p.drop_first()),
        runs_set(p).contains(v) == (in_run(p[0], v) || runs_set(p.drop_first()).contains(v)),
        runs_set(p.drop_first()).contains(v) ==> v as int > run_end(p[0]) + 1,
{
    let t = p.drop_first();
    assert forall|i: int| 0 <= i < t.len() implies run_end(#[trigger] t[i]) <= 65535 by {
        assert(t[i] == p[i + 1]);
    }
    assert forall|i: int, j: int| 0 <= i < j < t.len() implies run_end(#[trigger] t[i]) + 1 < (
    #[trigger] t[j]).start by {
        assert(t[i] == p[i + 1] && t[j] == p[j + 1]);
    }
    if runs_set(p).contains(v) {
        let i = choose|i: int| 0 <= i < p.len() && #[trigger] in_run(p[i], v);
        if i > 0 {
            assert(t[i - 1] == p[i]);
            assert(in_run(t[i - 1], v));
        }
    }
    if runs_set(t).contains(v) {
        let i = choose|i: int| 0 <= i < t.len() && #[trigger] in_run(t[i], v);
        assert(t[i] == p[i + 1]);
        assert(in_run(p[i + 1], v));
    }
    if in_run(p[0], v) {
        assert(runs_set(p).contains(v));
    }
}

/// A run list is determined by its set: two well-formed lists covering the same values are
/// the same list.
pub proof fn lemma_runs_canonical(p: Seq<Run>, q: Seq<Run>)
    requires
        runs_wf(p),
        runs_wf(q),
        runs_set(p) == runs_set(q),
    ensures
        p == q,
    decreases p.len(),
{
    if p.len() == 0 || q.len() == 0 {
        if q.len() > 0 {
            assert(in_run(q[0], q[0].start));
            assert(runs_set(q).contains(q[0].start));
        }
        if p.len() > 0 {
            assert(in_run(p[0], p[0].start));
            assert(runs_set(p).contains(p[0].start));
        }
        assert(p =~= q);
    } else {
        let a = p[0];
        let b = q[0];
        lemma_runs_head(p, a.start);
        lemma_runs_head(q, a.start);
        lemma_runs_head(p, b.start);
        lemma_runs_head(q, b.start);
        assert(in_run(a, a.start) && in_run(b, b.start));
        assert(a.start == b.start);
        if run_end(a) < run_end(b) {
            let v = (run_end(a) + 1) as u16;
            lemma_runs_head(p, v);
            lemma_runs_head(q, v);
            assert(in_run(b, v));
        }
        if run_end(b) < run_end(a) {
            let v = (run_end(b) + 1) as u16;
            lemma_runs_head(p, v);
            lemma_runs_head(q, v);
            assert(in_run(a, v));
        }
        assert(a == b);
        assert forall|v: u16| runs_set(p.drop_first()).contains(v) == runs_set(
            q.drop_first(),
        ).contains(v) by {
            lemma_runs_head(p, v);
            lemma_runs_head(q, v);
        }
        assert(runs_set(p.drop_first()) =~= runs_set(q.drop_first()));
        lemma_runs_canonical(p.drop_first(), q.drop_first());
        assert forall|i: int| 0 <= i < p.len() implies p[i] == q[i] by {
            if i > 0 {
                assert(p[i] == p.drop_first()[i - 1]);
                assert(q[i] == q.drop_first()[i - 1]);
            }
        }
        assert(p =~= q);
    }
}

/// A run container is determined by its set: two legal ones holding the same values have
/// the same runs and the same cached count.
pub proof fn law_run_canonical(a: RunContainer, b: RunContainer)
    requires
        a.wf(),
        b.wf(),
        a@ == b@,
    ensures
        a.runs_seq() == b.runs_seq(),
        a.cached() == b.cached(),
{
    lemma_runs_canonical(a.runs_seq(), b.runs_seq());
}

} // verus!
