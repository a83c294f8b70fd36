//! `Container`: the representation of one key's low 16-bit values, its conversion policy,
//! normalization, and the set operations.

pub mod array;
pub mod bitmap;
pub mod kernels;
pub mod run;

use vstd::prelude::*;
use crate::counting::{lemma_len_bound, lemma_runs_le_len, num_runs_of};
use array::{law_array_canonical, ArrayContainer};
use bitmap::{law_bitmap_canonical, BitmapContainer};
use run::{law_run_canonical, RunContainer};
use kernels::{
    count_words, and_array_array, and_array_bitmap, and_array_run, and_bitmap_bitmap, and_bitmap_run,
    and_run_run, or_array_array, or_array_bitmap, or_array_run, or_bitmap_bitmap, or_bitmap_run,
    or_run_run,
};
use vstd::set_lib::{lemma_len_subset, lemma_len_union};

verus! {

/// An array holds at most this many values; one more and a bitmap is smaller.
pub const ARRAY_MAX: u32 = 4096;

/// Byte size of a bitmap container.
pub const BITMAP_BYTES: u32 = 8192;

#[derive(Debug, PartialEq, Eq)]
pub enum Container {
    Array(ArrayContainer),
    Bitmap(BitmapContainer),
    Run(RunContainer),
}

/// The three representations.
#[derive(Clone, Copy, Debug, PartialEq, Eq, Structural)]
pub enum Repr {
    Array,
    Bitmap,
    Run,
}

/// Byte size of a representation holding `card` values in `runs` runs.
pub open spec fn repr_size(k: Repr, card: nat, runs: nat) -> nat {
    match k {
        Repr::Array => 2 * card,
        Repr::Bitmap => 8192,
        Repr::Run => 4 * runs,
    }
}

/// The first of array, bitmap, run (in that order) with the smallest size among the
/// legal ones; an array is legal only up to 4096 values.
pub open spec fn smallest_repr(card: nat, runs: nat) -> Repr {
    if card <= 4096 && 2 * card <= 4 * runs {
        Repr::Array
    } else if 8192 <= 4 * runs {
        Repr::Bitmap
    } else {
        Repr::Run
    }
}

/// What `optimize` turns representation `cur` into: the smallest one if it is strictly
/// smaller, else `cur` itself.
pub open spec fn optimized_repr(cur: Repr, card: nat, runs: nat) -> Repr {
    let best = smallest_repr(card, runs);
    if repr_size(best, card, runs) < repr_size(cur, card, runs) {
        best
    } else {
        cur
    }
}

/// `optimize` never makes a representation bigger, and optimizing an optimized container
/// changes nothing.
pub proof fn law_optimize_shrinks_and_is_idempotent(k: Repr, card: nat, runs: nat)
    ensures
        repr_size(optimized_repr(k, card, runs), card, runs) <= repr_size(k, card, runs),
        optimized_repr(optimized_repr(k, card, runs), card, runs) == optimized_repr(k, card, runs),
{
}

/// `optimize` picks a smallest representation for `card` values in `runs` runs, counting an
/// array at 2 bytes a value (legal only up to 4096 values), a bitmap at 8192 bytes and a run
/// list at 4 bytes a run: no legal representation is smaller than the result, the result is
/// an array only when an array is legal, and it is the current representation unless it is
/// strictly smaller than that.
pub proof fn law_optimize_minimal(cur: Repr, card: nat, runs: nat)
    ensures
        ({
            let k = optimized_repr(cur, card, runs);
            let size = if k == Repr::Array {
                2 * card
            } else if k == Repr::Bitmap {
                8192
            } else {
                4 * runs
            };
            let cur_size = if cur == Repr::Array {
                2 * card
            } else if cur == Repr::Bitmap {
                8192
            } else {
                4 * runs
            };
            &&& size <= 8192
            &&& size <= 4 * runs
            &&& card <= 4096 ==> size <= 2 * card
            &&& k == Repr::Array ==> card <= 4096
            &&& k == cur || size < cur_size
        }),
{
}

/// Inserting into a run list that is not bloated keeps a run list exactly when the runs
/// then still cost no more than a bitmap (`4 × runs <= 8192`), however many values it holds;
/// otherwise it becomes an array when it holds at most 4096 values, else a bitmap.
pub proof fn law_insert_into_runs(s: Set<u16>, v: u16)
    requires
        4 * num_runs_of(s) <= 8192,
    ensures
        (inserted_repr(Repr::Run, s, v) == Repr::Run) == (4 * num_runs_of(s.insert(v)) <= 8192),
        inserted_repr(Repr::Run, s, v) == Repr::Array ==> s.insert(v).len() <= 4096,
        inserted_repr(Repr::Run, s, v) == Repr::Bitmap ==> s.insert(v).len() > 4096,
{
    if s.contains(v) {
        assert(s.insert(v) =~= s);
    }
}

/// Removing from a run list that is not bloated keeps a run list exactly when the runs then
/// still cost no more than a bitmap (`4 × runs <= 8192`); otherwise it becomes an array when
/// it holds at most 4096 values, else a bitmap.
pub proof fn law_remove_from_runs(s: Set<u16>, v: u16)
    requires
        4 * num_runs_of(s) <= 8192,
    ensures
        (removed_repr(Repr::Run, s, v) == Repr::Run) == (4 * num_runs_of(s.remove(v)) <= 8192),
        removed_repr(Repr::Run, s, v) == Repr::Array ==> s.remove(v).len() <= 4096,
        removed_repr(Repr::Run, s, v) == Repr::Bitmap ==> s.remove(v).len() > 4096,
{
    if !s.contains(v) {
        assert(s.remove(v) =~= s);
    }
}

/// A run list bigger than a bitmap: `4 × runs > 8192`.
pub open spec fn run_bloated(s: Set<u16>) -> bool {
    4 * num_runs_of(s) > 8192
}

/// What a bloated run list holding `s` turns into: an array when it holds no more than
/// 4096 values, else a bitmap, so that a stored bitmap always holds more than 4096.
pub open spec fn demoted_repr(s: Set<u16>) -> Repr {
    if s.len() <= 4096 {
        Repr::Array
    } else {
        Repr::Bitmap
    }
}

/// The representation a freshly computed container is settled in: a bitmap at or below
/// the array threshold becomes an array, a bloated run list becomes an array or a bitmap by
/// its size.
pub open spec fn normalized_repr(k: Repr, s: Set<u16>) -> Repr {
    match k {
        Repr::Bitmap => if s.len() <= 4096 {
            Repr::Array
        } else {
            Repr::Bitmap
        },
        Repr::Run => if run_bloated(s) {
            demoted_repr(s)
        } else {
            Repr::Run
        },
        Repr::Array => Repr::Array,
    }
}

/// The representation a container in representation `cur` holding `s` is in after
/// inserting `v`: an array holding 4096 values becomes a bitmap before taking a new one, and
/// a run list that grows bloated is demoted.
pub open spec fn inserted_repr(cur: Repr, s: Set<u16>, v: u16) -> Repr {
    match cur {
        Repr::Array => if s.len() == 4096 && !s.contains(v) {
            Repr::Bitmap
        } else {
            Repr::Array
        },
        Repr::Bitmap => Repr::Bitmap,
        Repr::Run => if !s.contains(v) && run_bloated(s.insert(v)) {
            demoted_repr(s.insert(v))
        } else {
            Repr::Run
        },
    }
}

/// The representation a container in representation `cur` holding `s` is in after removing
/// `v`: a bitmap that drops to 4096 values becomes an array, and a run list that grows
/// bloated is demoted.
pub open spec fn removed_repr(cur: Repr, s: Set<u16>, v: u16) -> Repr {
    match cur {
        Repr::Array => Repr::Array,
        Repr::Bitmap => if s.contains(v) && s.remove(v).len() == 4096 {
            Repr::Array
        } else {
            Repr::Bitmap
        },
        Repr::Run => if s.contains(v) && run_bloated(s.remove(v)) {
            demoted_repr(s.remove(v))
        } else {
            Repr::Run
        },
    }
}

/// Representation the intersection kernel produces for two representations.
pub open spec fn and_kernel_repr(a: Repr, b: Repr) -> Repr {
    match (a, b) {
        (Repr::Array, _) => Repr::Array,
        (_, Repr::Array) => Repr::Array,
        (Repr::Run, Repr::Run) => Repr::Run,
        _ => Repr::Bitmap,
    }
}

/// Representation the union kernel produces for two representations of `la` and `lb`
/// values.
pub open spec fn or_kernel_repr(a: Repr, b: Repr, la: nat, lb: nat) -> Repr {
    match (a, b) {
        (Repr::Array, Repr::Array) => if la + lb <= 4096 {
            Repr::Array
        } else {
            Repr::Bitmap
        },
        (Repr::Array, Repr::Run) => Repr::Run,
        (Repr::Run, Repr::Array) => Repr::Run,
        (Repr::Run, Repr::Run) => Repr::Run,
        _ => Repr::Bitmap,
    }
}

impl View for Container {
    type V = Set<u16>;

    /// The set of low values held, whatever the representation.
    open spec fn view(&self) -> Set<u16> {
        match self {
            Container::Array(a) => a@,
            Container::Bitmap(b) => b@,
            Container::Run(r) => r@,
        }
    }
}

impl Clone for Container {
    fn clone(&self) -> (r: Self)
        ensures
            r.repr() == self.repr(),
            r@ == self@,
            r.wf() == self.wf(),
            r.inner_wf() == self.inner_wf(),
    {
        match self {
            Container::Array(a) => Container::Array(a.clone()),
            Container::Bitmap(b) => Container::Bitmap(b.clone()),
            Container::Run(r) => Container::Run(r.clone()),
        }
    }
}

/// A container is determined by its representation and its set: two legal containers store
/// the same thing exactly when they use the same representation and hold the same values.
/// So a round trip through another representation, or a second `optimize`, stores what
/// was stored before.
pub proof fn law_container_canonical(a: Container, b: Container)
    requires
        a.inner_wf(),
        b.inner_wf(),
    ensures
        a.same_content(&b) <==> (a.repr() == b.repr() && a@ == b@),
{
    match (a, b) {
        (Container::Array(x), Container::Array(y)) => {
            if x@ == y@ {
                law_array_canonical(x, y);
            }
        },
        (Container::Bitmap(x), Container::Bitmap(y)) => {
            if x@ == y@ {
                law_bitmap_canonical(x, y);
            }
        },
        (Container::Run(x), Container::Run(y)) => {
            if x@ == y@ {
                law_run_canonical(x, y);
            }
        },
        _ => {},
    }
}

impl Container {
    /// The two containers store the same thing: the same representation and, in it, the
    /// same sorted values, the same words and count, or the same runs and count.
    pub open spec fn same_content(&self, other: &Container) -> bool {
        match (self, other) {
            (Container::Array(a), Container::Array(b)) => a.seq() == b.seq(),
            (Container::Bitmap(a), Container::Bitmap(b)) => a.words_seq() == b.words_seq()
                && a.cached() == b.cached(),
            (Container::Run(a), Container::Run(b)) => a.runs_seq() == b.runs_seq() && a.cached()
                == b.cached(),
            _ => false,
        }
    }

    /// The representation in use.
    pub open spec fn repr(&self) -> Repr {
        match self {
            Container::Array(_) => Repr::Array,
            Container::Bitmap(_) => Repr::Bitmap,
            Container::Run(_) => Repr::Run,
        }
    }

    /// The representation is internally consistent.
    pub open spec fn inner_wf(&self) -> bool {
        match self {
            Container::Array(a) => a.wf(),
            Container::Bitmap(b) => b.wf(),
            Container::Run(r) => r.wf(),
        }
    }

    /// Internally consistent, an array holds at most 4096 values, a bitmap more than 4096,
    /// and a run list is not bloated.
    pub open spec fn wf(&self) -> bool {
        &&& self.inner_wf()
        &&& self.repr() == Repr::Array ==> self@.len() <= 4096
        &&& self.repr() == Repr::Bitmap ==> self@.len() > 4096
        &&& self.repr() == Repr::Run ==> !run_bloated(self@)
    }

    /// A fresh container holding exactly `v`. Every key starts life as an array.
    pub fn single(v: u16) -> (c: Container)
        ensures
            c.wf(),
            c.repr() == Repr::Array,
            c@ == Set::<u16>::empty().insert(v),
    {
        let mut a = ArrayContainer::new();
        a.insert(v);
        proof {
            lemma_len_bound(a@);
            assert(a@.len() == 1);
        }
        Container::Array(a)
    }

    /// Inserts `v`; returns whether it was absent. An array holding 4096 values turns into a
    /// bitmap before taking a new one; a run list that grows bloated turns into an array or a
    /// bitmap by its size.
    pub fn insert(&mut self, v: u16) -> (added: bool)
        requires
            old(self).inner_wf(),
        ensures
            final(self).inner_wf(),
            old(self).wf() ==> final(self).wf(),
            final(self)@ == old(self)@.insert(v),
            added == !old(self)@.contains(v),
            final(self).repr() == inserted_repr(old(self).repr(), old(self)@, v),
            old(self).wf() && old(self).repr() == Repr::Run ==> (final(self).repr() == Repr::Run)
                == (4 * num_runs_of(final(self)@) <= 8192),
    {
        proof {
            if old(self).wf() && old(self).repr() == Repr::Run {
                law_insert_into_runs(old(self)@, v);
            }
        }
        proof {
            lemma_len_bound(old(self)@);
            lemma_len_bound(old(self)@.insert(v));
        }
        // Pre-convert on the 4097th distinct value: 4096 × 2 B = 8192 B = bitmap size, so the
        // array only wins strictly below 4096.
        if let Container::Array(a) = self {
            if a.cardinality() == 4096 && !a.contains(v) {
                let b = BitmapContainer::from_array(a);
                *self = Container::Bitmap(b);
            }
        }
        let added = match self {
            Container::Array(a) => a.insert(v),
            Container::Bitmap(b) => b.insert(v),
            Container::Run(r) => r.insert(v),
        };
        if added {
            self.demote_run_if_bloated();
        }
        proof {
            if !old(self)@.contains(v) {
                assert(old(self)@.insert(v).len() == old(self)@.len() + 1);
            } else {
                assert(old(self)@.insert(v) =~= old(self)@);
            }
        }
        added
    }

    /// Removes `v`; returns whether it was present. A bitmap that drops to 4096 values turns
    /// into an array; a run list that grows bloated turns into an array or a bitmap by its
    /// size.
    pub fn remove(&mut self, v: u16) -> (removed: bool)
        requires
            old(self).inner_wf(),
        ensures
            final(self).inner_wf(),
            old(self).wf() ==> final(self).wf(),
            final(self)@ == old(self)@.remove(v),
            removed == old(self)@.contains(v),
            final(self).repr() == removed_repr(old(self).repr(), old(self)@, v),
            old(self).wf() && old(self).repr() == Repr::Run ==> (final(self).repr() == Repr::Run)
                == (4 * num_runs_of(final(self)@) <= 8192),
    {
        proof {
            if old(self).wf() && old(self).repr() == Repr::Run {
                law_remove_from_runs(old(self)@, v);
            }
        }
        proof {
            lemma_len_bound(old(self)@);
        }
        let removed = match self {
            Container::Array(a) => a.remove(v),
            Container::Bitmap(b) => b.remove(v),
            Container::Run(r) => r.remove(v),
        };
        if removed {
            // Crossing back to exactly 4096 means the array is now the smaller representation.
            self.bitmap_to_array_at_threshold();
            // A remove can split a run and thus increase the run count.
            self.demote_run_if_bloated();
        }
        proof {
            if old(self)@.contains(v) {
                assert(old(self)@.remove(v).len() == old(self)@.len() - 1);
            } else {
                assert(old(self)@.remove(v) =~= old(self)@);
            }
        }
        removed
    }

    /// A bitmap holding exactly 4096 values becomes an array.
    fn bitmap_to_array_at_threshold(&mut self)
        requires
            old(self).inner_wf(),
        ensures
            final(self).inner_wf(),
            final(self)@ == old(self)@,
            final(self).repr() == if old(self).repr() == Repr::Bitmap && old(self)@.len() == 4096 {
                Repr::Array
            } else {
                old(self).repr()
            },
    {
        if let Container::Bitmap(b) = self {
            if b.cardinality() == 4096 {
                *self = Container::Array(b.to_array());
            }
        }
    }

    /// A run list bigger than a bitmap has lost its reason to exist: `4 × runs > 8192`. It
    /// becomes an array when it holds at most 4096 values, else a bitmap.
    fn demote_run_if_bloated(&mut self)
        requires
            old(self).inner_wf(),
        ensures
            final(self).inner_wf(),
            final(self)@ == old(self)@,
            final(self).repr() == if old(self).repr() == Repr::Run && run_bloated(old(self)@) {
                demoted_repr(old(self)@)
            } else {
                old(self).repr()
            },
    {
        if let Container::Run(r) = self {
            if 4 * r.num_runs() > 8192 {
                if r.cardinality() <= 4096 {
                    *self = Container::Array(r.to_array());
                } else {
                    *self = Container::Bitmap(r.to_bitmap());
                }
            }
        }
    }

    pub fn contains(&self, v: u16) -> (b: bool)
        requires
            self.inner_wf(),
        ensures
            b == self@.contains(v),
    {
        match self {
            Container::Array(a) => a.contains(v),
            Container::Bitmap(b) => b.contains(v),
            Container::Run(r) => r.contains(v),
        }
    }

    pub fn cardinality(&self) -> (c: u32)
        requires
            self.inner_wf(),
        ensures
            c == self@.len(),
    {
        match self {
            Container::Array(a) => a.cardinality(),
            Container::Bitmap(b) => b.cardinality(),
            Container::Run(r) => r.cardinality(),
        }
    }

    pub fn is_empty(&self) -> (b: bool)
        requires
            self.inner_wf(),
        ensures
            b == (self@.len() == 0),
    {
        match self {
            Container::Array(a) => a.is_empty(),
            Container::Bitmap(b) => b.is_empty(),
            Container::Run(r) => r.is_empty(),
        }
    }

    /// Number of maximal runs of consecutive values.
    pub fn num_runs(&self) -> (r: u32)
        requires
            self.inner_wf(),
        ensures
            r == num_runs_of(self@),
    {
        match self {
            Container::Array(a) => a.num_runs(),
            Container::Bitmap(b) => b.num_runs(),
            Container::Run(r) => r.num_runs(),
        }
    }

    /// Smallest-of-three: converts iff the smallest legal representation is strictly
    /// smaller than the current one; ties keep the current representation. The result is
    /// legal unless it started as a bitmap of exactly 4096 values, which a tie keeps.
    pub fn optimize(&mut self)
        requires
            old(self).inner_wf(),
        ensures
            final(self).inner_wf(),
            !(old(self).repr() == Repr::Bitmap && old(self)@.len() == 4096) ==> final(self).wf(),
            final(self)@ == old(self)@,
            final(self).repr() == optimized_repr(
                old(self).repr(),
                old(self)@.len(),
                num_runs_of(old(self)@),
            ),
            ({
                let card = old(self)@.len();
                let runs = num_runs_of(old(self)@);
                let size = if final(self).repr() == Repr::Array {
                    2 * card
                } else if final(self).repr() == Repr::Bitmap {
                    8192
                } else {
                    4 * runs
                };
                let old_size = if old(self).repr() == Repr::Array {
                    2 * card
                } else if old(self).repr() == Repr::Bitmap {
                    8192
                } else {
                    4 * runs
                };
                &&& size <= 8192
                &&& size <= 4 * runs
                &&& card <= 4096 ==> size <= 2 * card
                &&& final(self).repr() == Repr::Array ==> card <= 4096
                &&& final(self).repr() == old(self).repr() || size < old_size
            }),
    {
        proof {
            law_optimize_minimal(self.repr(), self@.len(), num_runs_of(self@));
        }
        let card = self.cardinality();
        let num_runs = self.num_runs();
        proof {
            lemma_len_bound(self@);
            lemma_runs_le_len(self@);
        }
        let current_size = match self {
            Container::Array(_) => 2 * card,
            Container::Bitmap(_) => 8192,
            Container::Run(_) => 4 * num_runs,
        };
        let mut best_size = current_size;
        let mut target: Option<Repr> = None;
        if card <= 4096 && 2 * card < best_size {
            best_size = 2 * card;
            target = Some(Repr::Array);
        }
        if 8192 < best_size {
            best_size = 8192;
            target = Some(Repr::Bitmap);
        }
        if 4 * num_runs < best_size {
            target = Some(Repr::Run);
        }
        match target {
            None => {},
            Some(Repr::Array) => {
                let a = match self {
                    Container::Bitmap(b) => b.to_array(),
                    Container::Run(r) => r.to_array(),
                    Container::Array(_) => {
                        return ;
                    },
                };
                *self = Container::Array(a);
            },
            Some(Repr::Bitmap) => {
                let b = match self {
                    Container::Array(a) => BitmapContainer::from_array(a),
                    Container::Run(r) => r.to_bitmap(),
                    Container::Bitmap(_) => {
                        return ;
                    },
                };
                *self = Container::Bitmap(b);
            },
            Some(Repr::Run) => {
                let r = match self {
                    Container::Array(a) => RunContainer::from_array(a),
                    Container::Bitmap(b) => RunContainer::from_bitmap(b),
                    Container::Run(_) => {
                        return ;
                    },
                };
                *self = Container::Run(r);
            },
        }
    }
    /// Re-checks the stored structure of a container: array values strictly increasing and
    /// at most 4096; bitmap cardinality equal to the population count and above 4096; runs
    /// separated by a gap with cardinality `Σ(len + 1)`. Returns whether every check passed;
    /// for a consistent representation only the two thresholds can fail.
    pub(crate) fn assert_invariants(&self) -> (ok: bool)
        requires
            self.inner_wf(),
        ensures
            ok == ((self.repr() == Repr::Array ==> self@.len() <= 4096) && (self.repr()
                == Repr::Bitmap ==> self@.len() > 4096)),
    {
        match self {
            Container::Array(a) => {
                let s = a.as_slice();
                // Stored inside a bitmap, an array never exceeds the threshold.
                let mut ok = s.len() <= 4096;
                let mut i: usize = 1;
                while i < s.len()
                    invariant
                        a.wf(),
                        s@ == a.seq(),
                        1 <= i <= s@.len() || s@.len() == 0,
                        ok == (s@.len() <= 4096),
                    decreases s@.len() - i,
                {
                    if !(s[i - 1] < s[i]) {
                        ok = false;
                    }
                    i = i + 1;
                }
                proof {
                    a.lemma_len();
                }
                ok
            },
            Container::Bitmap(b) => {
                let popcount = count_words(b.words());
                // A stored bitmap always sits strictly above the array threshold.
                popcount == b.cardinality() && b.cardinality() > 4096
            },
            Container::Run(r) => {
                let runs = r.runs();
                let mut ok = true;
                let mut card: u32 = 0;
                let mut k: usize = 0;
                while k < runs.len()
                    invariant
                        r.wf(),
                        runs@ == r.runs_seq(),
                        0 <= k <= runs@.len(),
                        ok,
                        card == run::sum_counts(runs@.subrange(0, k as int)),
                    decreases runs@.len() - k,
                {
                    let start = runs[k].start as u32;
                    if k > 0 {
                        let prev_end = runs[k - 1].start as u32 + runs[k - 1].len as u32;
                        // Sorted, non-overlapping and non-adjacent: a gap of at least one.
                        if !(start > prev_end + 1) {
                            ok = false;
                        }
                    }
                    proof {
                        let p = runs@.subrange(0, k + 1);
                        assert(p.drop_last() =~= runs@.subrange(0, k as int));
                        assert(run::runs_wf(p));
                        run::lemma_runs_counts(p);
                        lemma_len_bound(run::runs_set(p));
                    }
                    card = card + runs[k].len as u32 + 1;
                    k = k + 1;
                }
                proof {
                    assert(runs@.subrange(0, runs@.len() as int) =~= runs@);
                    run::lemma_runs_counts(runs@);
                }
                ok && card == r.cardinality()
            },
        }
    }

    /// Intersection of two containers. The kernel picks the natural result
    /// representation; `normalize` keeps it legal.
    pub(crate) fn and(&self, other: &Container) -> (r: Container)
        requires
            self.wf(),
            other.wf(),
        ensures
            r.wf(),
            r@ == self@.intersect(other@),
            r.repr() == normalized_repr(and_kernel_repr(self.repr(), other.repr()), r@),
    {
        proof {
            lemma_len_bound(self@);
            lemma_len_bound(other@);
            lemma_len_subset(self@.intersect(other@), self@);
            lemma_len_subset(self@.intersect(other@), other@);
            assert(other@.intersect(self@) =~= self@.intersect(other@));
        }
        let c = match (self, other) {
            (Container::Array(a), Container::Array(b)) => and_array_array(a, b),
            (Container::Bitmap(a), Container::Bitmap(b)) => and_bitmap_bitmap(a, b),
            (Container::Run(a), Container::Run(b)) => and_run_run(a, b),
            (Container::Array(a), Container::Bitmap(b)) => and_array_bitmap(a, b),
            (Container::Bitmap(b), Container::Array(a)) => and_array_bitmap(a, b),
            (Container::Array(a), Container::Run(r)) => and_array_run(a, r),
            (Container::Run(r), Container::Array(a)) => and_array_run(a, r),
            (Container::Bitmap(b), Container::Run(r)) => and_bitmap_run(b, r),
            (Container::Run(r), Container::Bitmap(b)) => and_bitmap_run(b, r),
        };
        normalize(c)
    }

    /// Union of two containers. Same normalization discipline as `and`.
    pub(crate) fn or(&self, other: &Container) -> (r: Container)
        requires
            self.wf(),
            other.wf(),
        ensures
            r.wf(),
            r@ == self@.union(other@),
            r.repr() == normalized_repr(
                or_kernel_repr(self.repr(), other.repr(), self@.len(), other@.len()),
                r@,
            ),
    {
        proof {
            lemma_len_bound(self@);
            lemma_len_bound(other@);
            lemma_len_union(self@, other@);
            assert(other@.union(self@) =~= self@.union(other@));
        }
        let c = match (self, other) {
            (Container::Array(a), Container::Array(b)) => or_array_array(a, b),
            (Container::Bitmap(a), Container::Bitmap(b)) => or_bitmap_bitmap(a, b),
            (Container::Run(a), Container::Run(b)) => or_run_run(a, b),
            (Container::Array(a), Container::Bitmap(b)) => or_array_bitmap(a, b),
            (Container::Bitmap(b), Container::Array(a)) => or_array_bitmap(a, b),
            (Container::Array(a), Container::Run(r)) => or_array_run(a, r),
            (Container::Run(r), Container::Array(a)) => or_array_run(a, r),
            (Container::Bitmap(b), Container::Run(r)) => or_bitmap_run(b, r),
            (Container::Run(r), Container::Bitmap(b)) => or_bitmap_run(b, r),
        };
        normalize(c)
    }
}

/// Keeps a kernel result legal: a bitmap at or below the array threshold becomes an
/// array; a run list that outgrew a bitmap becomes an array or a bitmap by its size.
fn normalize(c: Container) -> (r: Container)
    requires
        c.inner_wf(),
        c.repr() == Repr::Array ==> c@.len() <= 4096,
    ensures
        r.wf(),
        r@ == c@,
        r.repr() == normalized_repr(c.repr(), c@),
{
    match c {
        Container::Bitmap(b) => {
            if b.cardinality() <= 4096 {
                Container::Array(b.to_array())
            } else {
                Container::Bitmap(b)
            }
        },
        Container::Run(r) => {
            proof {
                lemma_runs_le_len(r@);
                lemma_len_bound(r@);
            }
            if 4 * r.num_runs() > 8192 {
                if r.cardinality() <= 4096 {
                    Container::Array(r.to_array())
                } else {
                    Container::Bitmap(r.to_bitmap())
                }
            } else {
                Container::Run(r)
            }
        },
        other => other,
    }
}

} // verus!
