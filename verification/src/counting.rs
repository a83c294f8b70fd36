//! Counting members of `u16` sets below a bound, the measure behind every
//! cardinality and run-count contract of the containers.

use vstd::prelude::*;
use vstd::set_lib::*;

verus! {

/// Number of members of `s` that are strictly below `n`.
pub open spec fn count_below(s: Set<u16>, n: nat) -> nat
    decreases n,
{
    if n == 0 {
        0
    } else {
        count_below(s, (n - 1) as nat) + if s.contains((n - 1) as u16) {
            1nat
        } else {
            0nat
        }
    }
}

/// The members of `s` strictly below `n`.
pub open spec fn prefix_set(s: Set<u16>, n: nat) -> Set<u16> {
    s.filter(|v: u16| (v as nat) < n)
}

/// Values `v` of `s` that begin a maximal run: `v - 1` is not in `s` (or `v == 0`).
pub open spec fn run_starts(s: Set<u16>) -> Set<u16> {
    s.filter(|v: u16| v == 0 || !s.contains((v - 1) as u16))
}

/// Number of maximal runs of consecutive values in `s`.
pub open spec fn num_runs_of(s: Set<u16>) -> nat {
    run_starts(s).len()
}

proof fn lemma_prefix_count(s: Set<u16>, n: nat)
    requires
        n <= 65536,
    ensures
        prefix_set(s, n).finite(),
        prefix_set(s, n).len() == count_below(s, n),
    decreases n,
{
    if n == 0 {
        assert(prefix_set(s, 0) =~= Set::empty());
    } else {
        let m = (n - 1) as nat;
        lemma_prefix_count(s, m);
        let v = m as u16;
        assert(v as nat == m);
        if s.contains(v) {
            assert(prefix_set(s, n) =~= prefix_set(s, m).insert(v));
        } else {
            assert(prefix_set(s, n) =~= prefix_set(s, m));
        }
    }
}

/// Every set of `u16` is finite, and its size is the count of members below 65536.
pub proof fn lemma_len_is_count(s: Set<u16>)
    ensures
        s.finite(),
        s.len() == count_below(s, 65536),
{
    lemma_prefix_count(s, 65536);
    assert(prefix_set(s, 65536) =~= s);
}

/// A count below `n` never exceeds `n`.
pub proof fn lemma_count_bound(s: Set<u16>, n: nat)
    ensures
        count_below(s, n) <= n,
    decreases n,
{
    if n > 0 {
        lemma_count_bound(s, (n - 1) as nat);
    }
}

/// A set of `u16` has at most 65536 members.
pub proof fn lemma_len_bound(s: Set<u16>)
    ensures
        s.finite(),
        s.len() <= 65536,
{
    lemma_len_is_count(s);
    lemma_count_bound(s, 65536);
}

/// The count does not change across a stretch `[a, b)` that holds no member.
pub proof fn lemma_count_absent(s: Set<u16>, a: nat, b: nat)
    requires
        a <= b <= 65536,
        forall|v: u16| a <= v < b ==> !s.contains(v),
    ensures
        count_below(s, b) == count_below(s, a),
    decreases b - a,
{
    if a < b {
        let m = (b - 1) as nat;
        lemma_count_absent(s, a, m);
        assert(!s.contains(m as u16));
    }
}

/// The count grows by `b - a` across a stretch `[a, b)` of members.
pub proof fn lemma_count_present(s: Set<u16>, a: nat, b: nat)
    requires
        a <= b <= 65536,
        forall|v: u16| a <= v < b ==> s.contains(v),
    ensures
        count_below(s, b) == count_below(s, a) + (b - a),
    decreases b - a,
{
    if a < b {
        let m = (b - 1) as nat;
        lemma_count_present(s, a, m);
        assert(s.contains(m as u16));
    }
}

/// A set has no more runs than members.
pub proof fn lemma_runs_le_len(s: Set<u16>)
    ensures
        num_runs_of(s) <= s.len(),
{
    lemma_len_is_count(s);
    lemma_len_is_count(run_starts(s));
    lemma_len_subset(run_starts(s), s);
}

/// The empty set has no members and no runs.
pub proof fn lemma_empty_counts()
    ensures
        Set::<u16>::empty().len() == 0,
        num_runs_of(Set::<u16>::empty()) == 0,
{
    assert(run_starts(Set::<u16>::empty()) =~= Set::empty());
}

} // verus!
