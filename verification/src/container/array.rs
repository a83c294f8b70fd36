//! `ArrayContainer`: a strictly increasing `Vec<u16>` for low-cardinality containers.

use vstd::prelude::*;
use crate::counting::{
    count_below, lemma_count_absent, lemma_empty_counts, lemma_len_bound, lemma_len_is_count,
    num_runs_of, run_starts,
};
use crate::sorted::{
    lemma_sorted_canonical, lemma_sorted_gap, lemma_sorted_set_len, search_sorted, strictly_sorted,
};

verus! {

#[derive(Debug, PartialEq, Eq)]
pub struct ArrayContainer {
    values: Vec<u16>,
}

impl View for ArrayContainer {
    type V = Set<u16>;

    /// The set of stored values.
    open spec fn view(&self) -> Set<u16> {
        self.seq().to_set()
    }
}

impl Clone for ArrayContainer {
    fn clone(&self) -> (r: Self)
        ensures
            r.seq() == self.seq(),
    {
        let values = self.values.clone();
        proof {
            assert(values@ =~= self.values@);
        }
        ArrayContainer { values }
    }
}

impl Default for ArrayContainer {
    fn default() -> (r: Self)
        ensures
            r.wf(),
            r.seq() == Seq::<u16>::empty(),
    {
        ArrayContainer::new()
    }
}

impl ArrayContainer {
    /// The stored values, in order.
    pub closed spec fn seq(&self) -> Seq<u16> {
        self.values@
    }

    /// The values are strictly increasing.
    pub open spec fn wf(&self) -> bool {
        strictly_sorted(self.seq())
    }

    pub fn new() -> (r: Self)
        ensures
            r.wf(),
            r.seq() == Seq::<u16>::empty(),
            r@ == Set::<u16>::empty(),
    {
        let r = ArrayContainer { values: Vec::new() };
        assert(r@ =~= Set::<u16>::empty());
        r
    }

    /// The number of stored values always equals the size of the set and fits 65536.
    pub proof fn lemma_len(&self)
        requires
            self.wf(),
        ensures
            self.seq().len() == self@.len(),
            self@.len() <= 65536,
            self.seq().no_duplicates(),
    {
        lemma_sorted_set_len(self.seq());
        lemma_len_bound(self@);
    }

    pub fn cardinality(&self) -> (c: u32)
        requires
            self.wf(),
        ensures
            c == self@.len(),
    {
        proof {
            self.lemma_len();
        }
        self.values.len() as u32
    }

    pub fn is_empty(&self) -> (b: bool)
        requires
            self.wf(),
        ensures
            b == (self@.len() == 0),
    {
        proof {
            self.lemma_len();
        }
        self.values.len() == 0
    }

    pub fn contains(&self, v: u16) -> (b: bool)
        requires
            self.wf(),
        ensures
            b == self@.contains(v),
    {
        search_sorted(&self.values, v).is_ok()
    }

    /// Inserts `v`; returns whether it was absent.
    pub fn insert(&mut self, v: u16) -> (added: bool)
        requires
            old(self).wf(),
        ensures
            final(self).wf(),
            final(self)@ == old(self)@.insert(v),
            added == !old(self)@.contains(v),
    {
        match search_sorted(&self.values, v) {
            Ok(_) => false,
            Err(idx) => {
                let ghost s = self.values@;
                self.values.insert(idx, v);
                proof {
                    let t = self.values@;
                    assert(t =~= s.insert(idx as int, v));
                    assert(strictly_sorted(t)) by {
                        assert forall|i: int, j: int| 0 <= i < j < t.len() implies t[i] < t[j] by {
                            if j < idx {
                            } else if j == idx {
                            } else if i < idx {
                            } else if i == idx {
                                assert(t[j] == s[j - 1]);
                            } else {
                                assert(t[i] == s[i - 1]);
                                assert(t[j] == s[j - 1]);
                            }
                        }
                    }
                    assert(self@ =~= old(self)@.insert(v)) by {
                        assert forall|x: u16| self@.contains(x) <==> old(self)@.insert(v).contains(
                            x,
                        ) by {
                            if s.contains(x) {
                                let k = choose|k: int| 0 <= k < s.len() && s[k] == x;
                                if k < idx {
                                    assert(t[k] == x);
                                } else {
                                    assert(t[k + 1] == x);
                                }
                            }
                            if t.contains(x) {
                                let k = choose|k: int| 0 <= k < t.len() && t[k] == x;
                                if k < idx {
                                    assert(s[k] == x);
                                } else if k > idx {
                                    assert(s[k - 1] == x);
                                }
                            }
                            if x == v {
                                assert(t[idx as int] == v);
                            }
                        }
                    }
                }
                true
            },
        }
    }

    /// Removes `v`; returns whether it was present.
    pub fn remove(&mut self, v: u16) -> (removed: bool)
        requires
            old(self).wf(),
        ensures
            final(self).wf(),
            final(self)@ == old(self)@.remove(v),
            removed == old(self)@.contains(v),
    {
        match search_sorted(&self.values, v) {
            Ok(idx) => {
                let ghost s = self.values@;
                self.values.remove(idx);
                proof {
                    let t = self.values@;
                    assert(t =~= s.remove(idx as int));
                    assert(strictly_sorted(t)) by {
                        assert forall|i: int, j: int| 0 <= i < j < t.len() implies t[i] < t[j] by {
                            if j < idx {
                            } else if i < idx {
                                assert(t[j] == s[j + 1]);
                            } else {
                                assert(t[i] == s[i + 1]);
                                assert(t[j] == s[j + 1]);
                            }
                        }
                    }
                    assert(self@ =~= old(self)@.remove(v)) by {
                        assert forall|x: u16| self@.contains(x) <==> old(self)@.remove(v).contains(
                            x,
                        ) by {
                            if s.contains(x) && x != v {
                                let k = choose|k: int| 0 <= k < s.len() && s[k] == x;
                                if k < idx {
                                    assert(t[k] == x);
                                } else {
                                    assert(k != idx);
                                    assert(t[k - 1] == x);
                                }
                            }
                            if t.contains(x) {
                                let k = choose|k: int| 0 <= k < t.len() && t[k] == x;
                                if k < idx {
                                    assert(s[k] == x);
                                    assert(s[k] < s[idx as int]);
                                } else {
                                    assert(s[k + 1] == x);
                                    assert(s[idx as int] < s[k + 1]);
                                }
                            }
                        }
                    }
                }
                true
            },
            Err(_) => false,
        }
    }

    /// Number of maximal runs of consecutive values.
    pub fn num_runs(&self) -> (r: u32)
        requires
            self.wf(),
        ensures
            r == num_runs_of(self@),
    {
        let n = self.values.len();
        if n == 0 {
            proof {
                assert(self@ =~= Set::<u16>::empty());
                lemma_empty_counts();
            }
            return 0;
        }
        let ghost s = self@;
        let ghost rs = run_starts(s);
        let ghost q = self.values@;
        proof {
            self.lemma_len();
            lemma_len_is_count(rs);
            assert forall|x: u16| 0 <= x < q[0] implies !rs.contains(x) by {
                lemma_sorted_gap(q, 0, x);
            }
            lemma_count_absent(rs, 0, q[0] as nat);
            if q[0] > 0 {
                lemma_sorted_gap(q, 0, (q[0] - 1) as u16);
            }
            assert(rs.contains(q[0]));
        }
        let mut runs: u32 = 1;
        let mut i: usize = 1;
        while i < n
            invariant
                self.wf(),
                s == self@,
                rs == run_starts(s),
                q == self.values@,
                n == q.len(),
                n <= 65536,
                1 <= i <= n,
                runs <= i,
                runs == count_below(rs, q[i - 1] as nat + 1),
            decreases n - i,
        {
            let prev = self.values[i - 1];
            let cur = self.values[i];
            proof {
                assert(prev < cur);
                assert forall|x: u16| prev < x < cur implies !rs.contains(x) by {
                    lemma_sorted_gap(q, i as int, x);
                }
                lemma_count_absent(rs, prev as nat + 1, cur as nat);
                if cur > prev + 1 {
                    lemma_sorted_gap(q, i as int, (cur - 1) as u16);
                    assert(rs.contains(cur));
                } else {
                    assert(q.contains(prev));
                    assert(!rs.contains(cur));
                }
            }
            if cur > prev + 1 {
                runs = runs + 1;
            }
            i = i + 1;
        }
        proof {
            let last = q[n - 1];
            assert forall|x: u16| last < x implies !rs.contains(x) by {
                lemma_sorted_gap(q, n as int, x);
            }
            lemma_count_absent(rs, last as nat + 1, 65536);
        }
        runs
    }

    /// The stored values, in increasing order.
    pub fn as_slice(&self) -> (r: &Vec<u16>)
        ensures
            r@ == self.seq(),
    {
        &self.values
    }

    /// Builds a container from a vector that is already strictly increasing.
    pub(crate) fn from_sorted_vec(values: Vec<u16>) -> (r: Self)
        requires
            strictly_sorted(values@),
        ensures
            r.seq() == values@,
            r.wf(),
    {
        ArrayContainer { values }
    }
}

/// An array container is determined by its set: two containers holding the same values store
/// the same sequence, so converting to another representation and back gives the array back
/// exactly.
pub proof fn law_array_canonical(a: ArrayContainer, b: ArrayContainer)
    requires
        a.wf(),
        b.wf(),
        a@ == b@,
    ensures
        a.seq() == b.seq(),
{
    lemma_sorted_canonical(a.seq(), b.seq());
}

} // verus!
