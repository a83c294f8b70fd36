//! Strictly increasing sequences of `u16` and binary search over them.

use vstd::prelude::*;

verus! {

/// Every element is strictly smaller than every later one.
pub open spec fn strictly_sorted(s: Seq<u16>) -> bool {
    forall|i: int, j: int| 0 <= i < j < s.len() ==> s[i] < s[j]
}

/// What a search for `v` in a strictly sorted sequence reports: `Ok(i)` where `s[i] == v`,
/// or `Err(i)` with everything before `i` below `v` and everything from `i` on above it.
pub open spec fn search_result(s: Seq<u16>, v: u16, r: Result<usize, usize>) -> bool {
    match r {
        Ok(i) => i < s.len() && s[i as int] == v,
        Err(i) => {
            &&& i <= s.len()
            &&& forall|k: int| 0 <= k < i ==> s[k] < v
            &&& forall|k: int| i <= k < s.len() ==> s[k] > v
        },
    }
}

/// Binary search for `v` in a strictly increasing vector.
pub fn search_sorted(s: &Vec<u16>, v: u16) -> (r: Result<usize, usize>)
    requires
        strictly_sorted(s@),
    ensures
        search_result(s@, v, r),
        r is Ok <==> s@.contains(v),
{
    let mut lo: usize = 0;
    let mut hi: usize = s.len();
    while lo < hi
        invariant
            strictly_sorted(s@),
            0 <= lo <= hi <= s@.len(),
            forall|k: int| 0 <= k < lo ==> s@[k] < v,
            forall|k: int| hi <= k < s@.len() ==> s@[k] > v,
        decreases hi - lo,
    {
        let mid = lo + (hi - lo) / 2;
        let x = s[mid];
        if x == v {
            return Ok(mid);
        } else if x < v {
            lo = mid + 1;
        } else {
            hi = mid;
        }
    }
    proof {
        if s@.contains(v) {
            let k = choose|k: int| 0 <= k < s@.len() && s@[k] == v;
            assert(s@[k] == v);
        }
    }
    Err(lo)
}

/// In a strictly sorted sequence, membership of `x` is decided by its neighbours.
pub proof fn lemma_sorted_gap(s: Seq<u16>, i: int, x: u16)
    requires
        strictly_sorted(s),
        0 <= i <= s.len(),
        i > 0 ==> s[i - 1] < x,
        i < s.len() ==> x < s[i],
    ensures
        !s.contains(x),
{
    if s.contains(x) {
        let k = choose|k: int| 0 <= k < s.len() && s[k] == x;
        if k < i {
            assert(s[k] <= s[i - 1]);
        } else {
            assert(s[i] <= s[k]);
        }
    }
}

/// A strictly sorted sequence holds each value once, so its set has as many members.
pub proof fn lemma_sorted_set_len(s: Seq<u16>)
    requires
        strictly_sorted(s),
    ensures
        s.no_duplicates(),
        s.to_set().len() == s.len(),
{
    assert(s.no_duplicates()) by {
        assert forall|i: int, j: int| 0 <= i < s.len() && 0 <= j < s.len() && i != j implies s[i]
            != s[j] by {
            if i < j {
                assert(s[i] < s[j]);
            } else {
                assert(s[j] < s[i]);
            }
        }
    }
    s.unique_seq_to_set();
}

} // verus!

verus! {

/// Inserting `v` where a search reported `Err(i)` keeps the sequence strictly sorted.
pub proof fn lemma_sorted_insert(s: Seq<u16>, i: int, v: u16)
    requires
        strictly_sorted(s),
        0 <= i <= s.len(),
        forall|k: int| 0 <= k < i ==> s[k] < v,
        forall|k: int| i <= k < s.len() ==> s[k] > v,
    ensures
        strictly_sorted(s.insert(i, v)),
{
    let t = s.insert(i, v);
    assert forall|a: int, b: int| 0 <= a < b < t.len() implies t[a] < t[b] by {
        if b < i {
        } else if b == i {
        } else if a < i {
        } else if a == i {
            assert(t[b] == s[b - 1]);
        } else {
            assert(t[a] == s[a - 1]);
            assert(t[b] == s[b - 1]);
        }
    }
}

/// Removing an element keeps the sequence strictly sorted.
pub proof fn lemma_sorted_remove(s: Seq<u16>, i: int)
    requires
        strictly_sorted(s),
        0 <= i < s.len(),
    ensures
        strictly_sorted(s.remove(i)),
{
    let t = s.remove(i);
    assert forall|a: int, b: int| 0 <= a < b < t.len() implies t[a] < t[b] by {
        if b < i {
        } else if a < i {
            assert(t[b] == s[b + 1]);
        } else {
            assert(t[a] == s[a + 1]);
            assert(t[b] == s[b + 1]);
        }
    }
}

} // verus!

verus! {

/// Two strictly sorted sequences with the same elements are the same sequence.
pub proof fn lemma_sorted_canonical(s1: Seq<u16>, s2: Seq<u16>)
    requires
        strictly_sorted(s1),
        strictly_sorted(s2),
        s1.to_set() == s2.to_set(),
    ensures
        s1 == s2,
    decreases s1.len(),
{
    lemma_sorted_set_len(s1);
    lemma_sorted_set_len(s2);
    if s1.len() > 0 {
        let m1 = s1[0];
        let m2 = s2[0];
        assert(s1.to_set().contains(m1));
        assert(s2.contains(m1));
        assert(s1.contains(m2)) by {
            assert(s2.to_set().contains(m2));
        }
        let k1 = choose|k: int| 0 <= k < s2.len() && s2[k] == m1;
        let k2 = choose|k: int| 0 <= k < s1.len() && s1[k] == m2;
        if k1 > 0 {
            assert(s2[0] < s2[k1]);
        }
        if k2 > 0 {
            assert(s1[0] < s1[k2]);
        }
        assert(m1 == m2);
        let t1 = s1.drop_first();
        let t2 = s2.drop_first();
        assert(strictly_sorted(t1));
        assert(strictly_sorted(t2));
        assert forall|x: u16| t1.to_set().contains(x) == t2.to_set().contains(x) by {
            if t1.contains(x) {
                let i = choose|i: int| 0 <= i < t1.len() && t1[i] == x;
                assert(s1[i + 1] == x && s1[0] < s1[i + 1]);
                assert(s2.to_set().contains(x)) by {
                    assert(s1.to_set().contains(x));
                }
                let j = choose|j: int| 0 <= j < s2.len() && s2[j] == x;
                assert(j != 0);
                assert(t2[j - 1] == x);
            }
            if t2.contains(x) {
                let i = choose|i: int| 0 <= i < t2.len() && t2[i] == x;
                assert(s2[i + 1] == x && s2[0] < s2[i + 1]);
                assert(s1.to_set().contains(x)) by {
                    assert(s2.to_set().contains(x));
                }
                let j = choose|j: int| 0 <= j < s1.len() && s1[j] == x;
                assert(j != 0);
                assert(t1[j - 1] == x);
            }
        }
        assert(t1.to_set() =~= t2.to_set());
        lemma_sorted_canonical(t1, t2);
        assert(s1 =~= seq![m1] + t1);
        assert(s2 =~= seq![m2] + t2);
    } else {
        assert(s2.len() == 0);
        assert(s1 =~= s2);
    }
}

} // verus!
