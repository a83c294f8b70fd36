//! Top-level `RoaringBitmap`: sorted unique 16-bit keys, each owning a non-empty container of
//! the low 16 bits of its values; plus the `split`/`join` value model.

use vstd::prelude::*;
use vstd::pervasive::VecAdditionalExecFns;
use vstd::set_lib::{
    lemma_len_subset, lemma_map_size, lemma_set_disjoint_lens, lemma_set_empty_equivalency_len,
};
use crate::container::{
    and_kernel_repr, inserted_repr, normalized_repr, optimized_repr, or_kernel_repr, removed_repr,
    Container, Repr,
};
use crate::counting::{lemma_len_bound, num_runs_of};
use crate::sorted::{
    lemma_sorted_gap, lemma_sorted_insert, lemma_sorted_remove, lemma_sorted_set_len, search_sorted,
    strictly_sorted,
};

pub mod datasets;

use std::ops::{BitAnd, BitAndAssign, BitOr, BitOrAssign};
use vstd::std_specs::ops::{BitAndSpecImpl, BitOrSpecImpl};

verus! {

/// The container key of a value: its high 16 bits.
pub open spec fn key_of(x: u32) -> u16 {
    (x as int / 65536) as u16
}

/// The low 16 bits of a value.
pub open spec fn low_of(x: u32) -> u16 {
    (x as int % 65536) as u16
}

/// The value with key `k` and low part `l`.
pub open spec fn joined(k: u16, l: u16) -> u32 {
    (k as int * 65536 + l as int) as u32
}

/// A value is the join of its key and low part, and a join splits back into its parts.
pub proof fn lemma_key_low(x: u32, k: u16, l: u16)
    ensures
        joined(key_of(x), low_of(x)) == x,
        key_of(joined(k, l)) == k,
        low_of(joined(k, l)) == l,
{
    assert(x as int == 65536 * (x as int / 65536) + x as int % 65536);
    assert((k as int * 65536 + l as int) / 65536 == k as int) by (nonlinear_arith)
        requires
            0 <= l < 65536,
    ;
    assert((k as int * 65536 + l as int) % 65536 == l as int) by (nonlinear_arith)
        requires
            0 <= l < 65536,
    ;
    assert(k as int * 65536 + l as int <= u32::MAX) by (nonlinear_arith)
        requires
            0 <= k < 65536,
            0 <= l < 65536,
    ;
}

/// Splits a `u32` into its container key (high 16 bits) and low part (low 16 bits).
pub fn split(x: u32) -> (r: (u16, u16))
    ensures
        r.0 == key_of(x),
        r.1 == low_of(x),
{
    proof {
        assert((x >> 16u32) as u16 as int == x as int / 65536) by (bit_vector);
        assert(x as u16 as int == x as int % 65536) by (bit_vector);
    }
    ((x >> 16) as u16, x as u16)
}

/// Inverse of [`split`]: recombines a key and low part into a `u32`.
pub fn join(key: u16, low: u16) -> (r: u32)
    ensures
        r == joined(key, low),
{
    proof {
        assert((((key as u32) << 16u32) | low as u32) as int == key as int * 65536 + low as int)
            by (bit_vector);
        lemma_key_low(0, key, low);
    }
    ((key as u32) << 16) | low as u32
}

/// Splitting then joining gives the value back; joining then splitting gives the parts back.
pub proof fn law_split_join(x: u32, k: u16, l: u16)
    ensures
        joined(key_of(x), low_of(x)) == x,
        key_of(joined(k, l)) == k && low_of(joined(k, l)) == l,
{
    lemma_key_low(x, k, l);
}

/// The values with key `k` whose low part is in `s`.
pub open spec fn block(k: u16, s: Set<u16>) -> Set<u32> {
    Set::new(|x: u32| key_of(x) == k && s.contains(low_of(x)))
}

/// Entry `i` of parallel key and container lists holds `x`.
pub open spec fn entry_holds(ks: Seq<u16>, cs: Seq<Container>, i: int, x: u32) -> bool {
    ks[i] == key_of(x) && cs[i]@.contains(low_of(x))
}

/// The values held by parallel key and container lists.
pub open spec fn entries_set(ks: Seq<u16>, cs: Seq<Container>) -> Set<u32> {
    Set::new(|x: u32| exists|i: int| 0 <= i < ks.len() && #[trigger] entry_holds(ks, cs, i, x))
}

/// Keys strictly increasing, one per container, every container legal and non-empty.
pub open spec fn entries_wf(ks: Seq<u16>, cs: Seq<Container>) -> bool {
    &&& ks.len() == cs.len()
    &&& strictly_sorted(ks)
    &&& forall|i: int| 0 <= i < cs.len() ==> (#[trigger] cs[i]).wf() && cs[i]@.len() > 0
}

/// Sum of the container sizes.
pub open spec fn sum_lens(cs: Seq<Container>) -> nat
    decreases cs.len(),
{
    if cs.len() == 0 {
        0
    } else {
        sum_lens(cs.drop_last()) + cs.last()@.len()
    }
}

pub proof fn lemma_entries_concat(ks1: Seq<u16>, cs1: Seq<Container>, ks2: Seq<u16>, cs2: Seq<Container>)
    requires
        ks1.len() == cs1.len(),
        ks2.len() == cs2.len(),
    ensures
        entries_set(ks1 + ks2, cs1 + cs2) =~= entries_set(ks1, cs1).union(entries_set(ks2, cs2)),
{
    let ks = ks1 + ks2;
    let cs = cs1 + cs2;
    let n1 = ks1.len() as int;
    assert forall|x: u32| entries_set(ks, cs).contains(x) == entries_set(ks1, cs1).union(
        entries_set(ks2, cs2),
    ).contains(x) by {
        if entries_set(ks, cs).contains(x) {
            let i = choose|i: int| 0 <= i < ks.len() && #[trigger] entry_holds(ks, cs, i, x);
            if i < n1 {
                assert(entry_holds(ks1, cs1, i, x));
            } else {
                assert(entry_holds(ks2, cs2, i - n1, x));
            }
        }
        if entries_set(ks1, cs1).contains(x) {
            let i = choose|i: int| 0 <= i < ks1.len() && #[trigger] entry_holds(ks1, cs1, i, x);
            assert(entry_holds(ks, cs, i, x));
        }
        if entries_set(ks2, cs2).contains(x) {
            let i = choose|i: int| 0 <= i < ks2.len() && #[trigger] entry_holds(ks2, cs2, i, x);
            assert(entry_holds(ks, cs, i + n1, x));
        }
    }
}

pub proof fn lemma_entries_single(k: u16, c: Container)
    ensures
        entries_set(seq![k], seq![c]) =~= block(k, c@),
{
    assert forall|x: u32| entries_set(seq![k], seq![c]).contains(x) == block(k, c@).contains(x) by {
        if block(k, c@).contains(x) {
            assert(entry_holds(seq![k], seq![c], 0, x));
        }
    }
}

pub proof fn lemma_entries_empty()
    ensures
        entries_set(Seq::<u16>::empty(), Seq::<Container>::empty()) =~= Set::<u32>::empty(),
{
}

/// With sorted keys, whether `x` is held is decided by the entry of its key.
pub proof fn lemma_entries_locate(ks: Seq<u16>, cs: Seq<Container>, i: int, x: u32)
    requires
        ks.len() == cs.len(),
        strictly_sorted(ks),
        0 <= i < ks.len(),
        ks[i] == key_of(x),
    ensures
        entries_set(ks, cs).contains(x) == cs[i]@.contains(low_of(x)),
{
    if entries_set(ks, cs).contains(x) {
        let m = choose|m: int| 0 <= m < ks.len() && #[trigger] entry_holds(ks, cs, m, x);
        if m < i {
            assert(ks[m] < ks[i]);
        } else if m > i {
            assert(ks[i] < ks[m]);
        }
    }
    if cs[i]@.contains(low_of(x)) {
        assert(entry_holds(ks, cs, i, x));
    }
}

/// A value whose key is absent is not held.
pub proof fn lemma_entries_absent(ks: Seq<u16>, cs: Seq<Container>, x: u32)
    requires
        ks.len() == cs.len(),
        !ks.contains(key_of(x)),
    ensures
        !entries_set(ks, cs).contains(x),
{
    if entries_set(ks, cs).contains(x) {
        let m = choose|m: int| 0 <= m < ks.len() && #[trigger] entry_holds(ks, cs, m, x);
        assert(ks[m] == key_of(x));
    }
}

/// Replacing container `i` changes only the values of key `ks[i]`.
pub proof fn lemma_entries_update(ks: Seq<u16>, cs: Seq<Container>, i: int, c: Container)
    requires
        ks.len() == cs.len(),
        strictly_sorted(ks),
        0 <= i < ks.len(),
    ensures
        forall|y: u32| #[trigger]
            entries_set(ks, cs.update(i, c)).contains(y) == if key_of(y) == ks[i] {
                c@.contains(low_of(y))
            } else {
                entries_set(ks, cs).contains(y)
            },
{
    let cs2 = cs.update(i, c);
    assert forall|y: u32| #[trigger]
        entries_set(ks, cs2).contains(y) == if key_of(y) == ks[i] {
            c@.contains(low_of(y))
        } else {
            entries_set(ks, cs).contains(y)
        } by {
        if key_of(y) == ks[i] {
            lemma_entries_locate(ks, cs2, i, y);
        } else if ks.contains(key_of(y)) {
            let m = choose|m: int| 0 <= m < ks.len() && ks[m] == key_of(y);
            lemma_entries_locate(ks, cs2, m, y);
            lemma_entries_locate(ks, cs, m, y);
        } else {
            lemma_entries_absent(ks, cs2, y);
            lemma_entries_absent(ks, cs, y);
        }
    }
}

/// The entries `0..i + 1` hold those of `0..i` plus the block of entry `i`.
pub proof fn lemma_entries_prefix_step(ks: Seq<u16>, cs: Seq<Container>, i: int)
    requires
        ks.len() == cs.len(),
        0 <= i < ks.len(),
    ensures
        entries_set(ks.subrange(0, i + 1), cs.subrange(0, i + 1)) =~= entries_set(
            ks.subrange(0, i),
            cs.subrange(0, i),
        ).union(block(ks[i], cs[i]@)),
{
    assert(ks.subrange(0, i + 1) =~= ks.subrange(0, i) + seq![ks[i]]);
    assert(cs.subrange(0, i + 1) =~= cs.subrange(0, i) + seq![cs[i]]);
    lemma_entries_concat(ks.subrange(0, i), cs.subrange(0, i), seq![ks[i]], seq![cs[i]]);
    lemma_entries_single(ks[i], cs[i]);
}

/// A block has as many values as its low set.
pub proof fn lemma_block_len(k: u16, s: Set<u16>)
    ensures
        block(k, s).finite(),
        block(k, s).len() == s.len(),
{
    lemma_len_bound(s);
    let f = |l: u16| joined(k, l);
    assert forall|l1: u16, l2: u16| s.contains(l1) && s.contains(l2) && #[trigger] f(l1) == #[trigger] f(
        l2,
    ) implies l1 == l2 by {
        lemma_key_low(0, k, l1);
        lemma_key_low(0, k, l2);
    }
    assert forall|x: u32| block(k, s).contains(x) == s.map(f).contains(x) by {
        if block(k, s).contains(x) {
            lemma_key_low(x, k, 0);
            assert(s.contains(low_of(x)) && x == f(low_of(x)));
        }
        if s.map(f).contains(x) {
            let l = choose|l: u16| s.contains(l) && x == f(l);
            lemma_key_low(0, k, l);
        }
    }
    assert(block(k, s) =~= s.map(f));
    lemma_map_size(s, block(k, s), f);
}

/// The number of values held is the sum of the container sizes.
pub proof fn lemma_entries_len(ks: Seq<u16>, cs: Seq<Container>)
    requires
        ks.len() == cs.len(),
        strictly_sorted(ks),
    ensures
        entries_set(ks, cs).finite(),
        entries_set(ks, cs).len() == sum_lens(cs),
    decreases ks.len(),
{
    if ks.len() == 0 {
        lemma_entries_empty();
        assert(ks =~= Seq::<u16>::empty() && cs =~= Seq::<Container>::empty());
    } else {
        let n = ks.len() - 1;
        let ks0 = ks.subrange(0, n);
        let cs0 = cs.subrange(0, n);
        assert(strictly_sorted(ks0));
        lemma_entries_len(ks0, cs0);
        lemma_entries_prefix_step(ks, cs, n);
        assert(ks.subrange(0, n + 1) =~= ks && cs.subrange(0, n + 1) =~= cs);
        lemma_block_len(ks[n], cs[n]@);
        assert(entries_set(ks0, cs0).disjoint(block(ks[n], cs[n]@))) by {
            assert forall|x: u32| entries_set(ks0, cs0).contains(x) implies !block(
                ks[n],
                cs[n]@,
            ).contains(x) by {
                let m = choose|m: int| 0 <= m < ks0.len() && #[trigger] entry_holds(ks0, cs0, m, x);
                assert(ks[m] < ks[n]);
            }
        }
        lemma_set_disjoint_lens(entries_set(ks0, cs0), block(ks[n], cs[n]@));
        assert(cs.drop_last() =~= cs0);
    }
}

/// Appending an entry adds its block.
pub proof fn lemma_entries_push(ks: Seq<u16>, cs: Seq<Container>, k: u16, c: Container)
    requires
        ks.len() == cs.len(),
    ensures
        entries_set(ks.push(k), cs.push(c)) =~= entries_set(ks, cs).union(block(k, c@)),
{
    assert(ks.push(k) =~= ks + seq![k]);
    assert(cs.push(c) =~= cs + seq![c]);
    lemma_entries_concat(ks, cs, seq![k], seq![c]);
    lemma_entries_single(k, c);
}

/// The values of a block that well-formed entries hold: the block restricted to the entry
/// of its key, or nothing when the key is absent.
pub proof fn lemma_entries_block(ks: Seq<u16>, cs: Seq<Container>, k: u16, s: Set<u16>)
    requires
        ks.len() == cs.len(),
        strictly_sorted(ks),
    ensures
        forall|j: int|
            0 <= j < ks.len() && ks[j] == k ==> entries_set(ks, cs).intersect(block(k, s)) =~= block(
                k,
                s.intersect(#[trigger] cs[j]@),
            ),
        !ks.contains(k) ==> entries_set(ks, cs).intersect(block(k, s)) =~= Set::<u32>::empty(),
{
    assert forall|j: int| 0 <= j < ks.len() && ks[j] == k implies entries_set(ks, cs).intersect(
        block(k, s),
    ) =~= block(k, s.intersect(#[trigger] cs[j]@)) by {
        assert forall|x: u32| entries_set(ks, cs).intersect(block(k, s)).contains(x) == block(
            k,
            s.intersect(cs[j]@),
        ).contains(x) by {
            if key_of(x) == k {
                lemma_entries_locate(ks, cs, j, x);
            }
        }
    }
    if !ks.contains(k) {
        assert forall|x: u32| !entries_set(ks, cs).intersect(block(k, s)).contains(x) by {
            if key_of(x) == k {
                lemma_entries_absent(ks, cs, x);
            }
        }
    }
}

/// The entries of a prefix are among the entries of the whole.
pub proof fn lemma_entries_prefix_sub(ks: Seq<u16>, cs: Seq<Container>, j: int)
    requires
        ks.len() == cs.len(),
        0 <= j <= ks.len(),
    ensures
        entries_set(ks.subrange(0, j), cs.subrange(0, j)).subset_of(entries_set(ks, cs)),
{
    let n = ks.len() as int;
    assert(ks =~= ks.subrange(0, j) + ks.subrange(j, n));
    assert(cs =~= cs.subrange(0, j) + cs.subrange(j, n));
    lemma_entries_concat(ks.subrange(0, j), cs.subrange(0, j), ks.subrange(j, n), cs.subrange(j, n));
}

/// Index of key `k` in `ks` (meaningful when `ks` holds `k`).
pub open spec fn key_index(ks: Seq<u16>, k: u16) -> int {
    choose|i: int| 0 <= i < ks.len() && ks[i] == k
}

/// In strictly sorted keys, the index of a key is its position.
pub proof fn lemma_key_index(ks: Seq<u16>, i: int)
    requires
        strictly_sorted(ks),
        0 <= i < ks.len(),
    ensures
        key_index(ks, ks[i]) == i,
{
    let j = key_index(ks, ks[i]);
    assert(0 <= j < ks.len() && ks[j] == ks[i]);
    if j < i {
        assert(ks[j] < ks[i]);
    } else if j > i {
        assert(ks[i] < ks[j]);
    }
}

/// Container `c` under key `k` of an intersection of `a` and `b` is what the container
/// intersection of their containers under `k` produces.
pub open spec fn and_entry(a: RoaringBitmap, b: RoaringBitmap, k: u16, c: Container) -> bool {
    let ca = a.containers_seq()[key_index(a.keys_seq(), k)];
    let cb = b.containers_seq()[key_index(b.keys_seq(), k)];
    &&& a.keys_seq().contains(k)
    &&& b.keys_seq().contains(k)
    &&& c.repr() == normalized_repr(and_kernel_repr(ca.repr(), cb.repr()), c@)
}

/// Container `c` under key `k` of a union of `a` and `b`: the container union when both hold
/// `k`, else a copy of the one container holding `k`.
pub open spec fn or_entry(a: RoaringBitmap, b: RoaringBitmap, k: u16, c: Container) -> bool {
    let ca = a.containers_seq()[key_index(a.keys_seq(), k)];
    let cb = b.containers_seq()[key_index(b.keys_seq(), k)];
    if a.keys_seq().contains(k) && b.keys_seq().contains(k) {
        c.repr() == normalized_repr(or_kernel_repr(ca.repr(), cb.repr(), ca@.len(), cb@.len()), c@)
    } else if a.keys_seq().contains(k) {
        c.repr() == ca.repr()
    } else {
        b.keys_seq().contains(k) && c.repr() == cb.repr()
    }
}

/// The container under key `k` in `b` (meaningful when `b` holds `k`).
pub open spec fn container_of(b: RoaringBitmap, k: u16) -> Container {
    b.containers_seq()[key_index(b.keys_seq(), k)]
}

/// Container `c` under key `k` after inserting `x` into `a`: for another key, the very
/// container `a` has under `k`; for the key of `x`, the container `a` had with the low part of
/// `x` added, in the representation a container insertion gives, or a fresh array holding
/// only that low part when `a` had none.
pub open spec fn insert_entry(a: RoaringBitmap, x: u32, k: u16, c: Container) -> bool {
    if k != key_of(x) {
        a.keys_seq().contains(k) && c == container_of(a, k)
    } else if a.keys_seq().contains(k) {
        &&& c.repr() == inserted_repr(container_of(a, k).repr(), container_of(a, k)@, low_of(x))
        &&& c@ == container_of(a, k)@.insert(low_of(x))
    } else {
        &&& c.repr() == Repr::Array
        &&& c@ == Set::<u16>::empty().insert(low_of(x))
    }
}

/// Container `c` under key `k` after removing `x` from `a`: `a` has a container under `k`;
/// for another key `c` is that very container; for the key of `x`, it is the container with
/// the low part of `x` taken out, in the representation a container removal gives.
pub open spec fn remove_entry(a: RoaringBitmap, x: u32, k: u16, c: Container) -> bool {
    &&& a.keys_seq().contains(k)
    &&& if k != key_of(x) {
        c == container_of(a, k)
    } else {
        &&& c.repr() == removed_repr(container_of(a, k).repr(), container_of(a, k)@, low_of(x))
        &&& c@ == container_of(a, k)@.remove(low_of(x))
    }
}

/// Container `c` under key `k` of a consuming union of `a` and `b`: the container union
/// when both hold `k`, else the very container of the one holding `k`.
pub open spec fn merge_entry(a: RoaringBitmap, b: RoaringBitmap, k: u16, c: Container) -> bool {
    if a.keys_seq().contains(k) && b.keys_seq().contains(k) {
        c.repr() == normalized_repr(
            or_kernel_repr(
                container_of(a, k).repr(),
                container_of(b, k).repr(),
                container_of(a, k)@.len(),
                container_of(b, k)@.len(),
            ),
            c@,
        )
    } else if a.keys_seq().contains(k) {
        c == container_of(a, k)
    } else {
        b.keys_seq().contains(k) && c == container_of(b, k)
    }
}

/// The union of all the views of a sequence of bitmaps.
pub open spec fn union_of(bs: Seq<RoaringBitmap>) -> Set<u32>
    decreases bs.len(),
{
    if bs.len() == 0 {
        Set::empty()
    } else {
        union_of(bs.drop_last()).union(bs.last()@)
    }
}

/// No key is held by two different bitmaps of `bs`.
pub open spec fn keys_disjoint(bs: Seq<RoaringBitmap>) -> bool {
    forall|i: int, j: int, k: u16|
        0 <= i < bs.len() && 0 <= j < bs.len() && i != j && #[trigger] bs[i].keys_seq().contains(k)
            ==> !#[trigger] bs[j].keys_seq().contains(k)
}

/// Container `c` under key `k` has the representation and the contents of the container
/// under `k` in one of the bitmaps of `bs` from index `lo` on.
pub open spec fn copied_entry(bs: Seq<RoaringBitmap>, lo: int, k: u16, c: Container) -> bool {
    exists|i: int|
        lo <= i < bs.len() && #[trigger] bs[i].keys_seq().contains(k) && c.repr()
            == bs[i].containers_seq()[key_index(bs[i].keys_seq(), k)].repr() && c@
            == bs[i].containers_seq()[key_index(bs[i].keys_seq(), k)]@
}

/// A consuming union of `a`, whose containers are copies out of `bs[n + 1..]`, with
/// `b = bs[n]` has containers that are copies out of `bs[n..]`, when no key is shared among
/// `bs`.
proof fn lemma_merge_copies(
    a: RoaringBitmap,
    b: RoaringBitmap,
    r: RoaringBitmap,
    bs: Seq<RoaringBitmap>,
    n: int,
)
    requires
        a.wf(),
        b.wf(),
        0 <= n < bs.len(),
        bs[n] == b,
        keys_disjoint(bs),
        forall|t: int|
            0 <= t < r.keys_seq().len() ==> merge_entry(
                a,
                b,
                r.keys_seq()[t],
                #[trigger] r.containers_seq()[t],
            ),
        forall|t: int|
            0 <= t < a.keys_seq().len() ==> copied_entry(
                bs,
                n + 1,
                a.keys_seq()[t],
                #[trigger] a.containers_seq()[t],
            ),
    ensures
        forall|t: int|
            0 <= t < r.keys_seq().len() ==> copied_entry(
                bs,
                n,
                r.keys_seq()[t],
                #[trigger] r.containers_seq()[t],
            ),
{
    assert forall|t: int| 0 <= t < r.keys_seq().len() implies copied_entry(
        bs,
        n,
        r.keys_seq()[t],
        #[trigger] r.containers_seq()[t],
    ) by {
        let k = r.keys_seq()[t];
        let c = r.containers_seq()[t];
        assert(merge_entry(a, b, k, c));
        if a.keys_seq().contains(k) {
            let ta = key_index(a.keys_seq(), k);
            let ca = a.containers_seq()[ta];
            assert(0 <= ta < a.keys_seq().len() && a.keys_seq()[ta] == k);
            assert(copied_entry(bs, n + 1, k, ca));
            let i = choose|i: int|
                n + 1 <= i < bs.len() && #[trigger] bs[i].keys_seq().contains(k) && ca.repr()
                    == bs[i].containers_seq()[key_index(bs[i].keys_seq(), k)].repr() && ca@
                    == bs[i].containers_seq()[key_index(bs[i].keys_seq(), k)]@;
            assert(!bs[n].keys_seq().contains(k));
            assert(c == ca);
            assert(bs[i].keys_seq().contains(k));
        } else {
            assert(bs[n].keys_seq().contains(k));
        }
    }
}

pub struct RoaringBitmap {
    // Parallel vectors (keys[i] owns containers[i]), sorted by key, keys unique.
    keys: Vec<u16>,
    containers: Vec<Container>,
}

impl View for RoaringBitmap {
    type V = Set<u32>;

    /// The set of values held.
    open spec fn view(&self) -> Set<u32> {
        entries_set(self.keys_seq(), self.containers_seq())
    }
}

impl Clone for RoaringBitmap {
    fn clone(&self) -> (r: Self)
        ensures
            r.wf(),
            r.keys_seq() == self.keys_seq(),
            r.containers_seq().len() == self.containers_seq().len(),
            forall|i: int|
                0 <= i < self.containers_seq().len() ==> (#[trigger] r.containers_seq()[i])@
                    == self.containers_seq()[i]@ && r.containers_seq()[i].repr()
                    == self.containers_seq()[i].repr() && r.containers_seq()[i].wf()
                    == self.containers_seq()[i].wf(),
            r@ == self@,
    {
        proof {
            use_type_invariant(self);
        }
        let keys = self.keys.clone();
        let mut containers: Vec<Container> = Vec::new();
        let mut i: usize = 0;
        while i < self.containers.len()
            invariant
                0 <= i <= self.containers@.len(),
                containers@.len() == i,
                forall|m: int|
                    0 <= m < i ==> (#[trigger] containers@[m])@ == self.containers@[m]@
                        && containers@[m].repr() == self.containers@[m].repr()
                        && containers@[m].wf() == self.containers@[m].wf(),
            decreases self.containers@.len() - i,
        {
            containers.push(self.containers[i].clone());
            i = i + 1;
        }
        let r = RoaringBitmap { keys, containers };
        proof {
            assert(r.keys_seq() =~= self.keys_seq());
            if true {
                assert forall|m: int| 0 <= m < r.containers_seq().len() implies (
                #[trigger] r.containers_seq()[m]).wf() && r.containers_seq()[m]@.len() > 0 by {
                    assert(self.containers_seq()[m].wf());
                }
                assert forall|x: u32| r@.contains(x) == self@.contains(x) by {
                    if r@.contains(x) {
                        let m = choose|m: int|
                            0 <= m < r.keys_seq().len() && #[trigger] entry_holds(
                                r.keys_seq(),
                                r.containers_seq(),
                                m,
                                x,
                            );
                        assert(r.containers_seq()[m]@ == self.containers_seq()[m]@);
                        assert(entry_holds(self.keys_seq(), self.containers_seq(), m, x));
                    }
                    if self@.contains(x) {
                        let m = choose|m: int|
                            0 <= m < self.keys_seq().len() && #[trigger] entry_holds(
                                self.keys_seq(),
                                self.containers_seq(),
                                m,
                                x,
                            );
                        assert(r.containers_seq()[m]@ == self.containers_seq()[m]@);
                        assert(entry_holds(r.keys_seq(), r.containers_seq(), m, x));
                    }
                }
                assert(r@ =~= self@);
            }
        }
        r
    }
}

impl Default for RoaringBitmap {
    fn default() -> (r: Self)
        ensures
            r.wf(),
            r@ == Set::<u32>::empty(),
    {
        RoaringBitmap::new()
    }
}

impl RoaringBitmap {
    /// The keys, in increasing order.
    pub closed spec fn keys_seq(&self) -> Seq<u16> {
        self.keys@
    }

    /// The containers, one per key.
    pub closed spec fn containers_seq(&self) -> Seq<Container> {
        self.containers@
    }

    /// Keys sorted and unique, one legal non-empty container per key.
    #[verifier::type_invariant]
    pub open spec fn wf(&self) -> bool {
        entries_wf(self.keys_seq(), self.containers_seq())
    }

    pub fn new() -> (r: Self)
        ensures
            r.wf(),
            r@ == Set::<u32>::empty(),
            r.keys_seq().len() == 0,
    {
        let r = RoaringBitmap { keys: Vec::new(), containers: Vec::new() };
        proof {
            assert(r@ =~= Set::<u32>::empty());
        }
        r
    }

    /// Inserts `x`; returns whether it was absent.
    pub fn insert(&mut self, x: u32) -> (added: bool)
        ensures
            final(self).wf(),
            final(self)@ == old(self)@.insert(x),
            added == !old(self)@.contains(x),
            final(self).keys_seq().len() == final(self).containers_seq().len(),
            forall|t: int|
                0 <= t < final(self).keys_seq().len() ==> insert_entry(
                    *old(self),
                    x,
                    final(self).keys_seq()[t],
                    #[trigger] final(self).containers_seq()[t],
                ),
    {
        proof {
            use_type_invariant(&*self);
        }
        let (key, low) = split(x);
        let mut tmp = RoaringBitmap::new();
        std::mem::swap(self, &mut tmp);
        let RoaringBitmap { mut keys, mut containers } = tmp;
        let ghost ks = keys@;
        let ghost cs = containers@;
        let added = match search_sorted(&keys, key) {
            Ok(i) => {
                proof {
                    lemma_entries_locate(ks, cs, i as int, x);
                    assert(cs[i as int].wf());
                }
                let added = containers[i].insert(low);
                proof {
                    let c = containers@[i as int];
                    assert(containers@ =~= cs.update(i as int, c));
                    lemma_entries_update(ks, cs, i as int, c);
                    assert forall|y: u32| entries_set(keys@, containers@).contains(y) == old(self)@.insert(x).contains(y) by {
                        if key_of(y) == ks[i as int] {
                            lemma_entries_locate(ks, cs, i as int, y);
                            if low_of(y) == low {
                                lemma_key_low(x, 0, 0);
                                lemma_key_low(y, 0, 0);
                            }
                        }
                    }
                    assert(entries_set(keys@, containers@) =~= old(self)@.insert(x));
                    assert forall|m: int| 0 <= m < containers@.len() implies (
                    #[trigger] containers@[m]).wf() && containers@[m]@.len() > 0 by {
                        if m == i {
                            lemma_len_bound(c@);
                            assert(c@.contains(low));
                        }
                    }
                    assert forall|t: int| 0 <= t < keys@.len() implies insert_entry(
                        *old(self),
                        x,
                        keys@[t],
                        #[trigger] containers@[t],
                    ) by {
                        lemma_key_index(ks, t);
                        assert(ks.contains(ks[t]));
                    }
                }
                added
            },
            Err(i) => {
                let c = Container::single(low);
                keys.insert(i, key);
                containers.insert(i, c);
                proof {
                    let ii = i as int;
                    lemma_sorted_insert(ks, ii, key);
                    lemma_entries_absent(ks, cs, x);
                    assert(keys@ =~= ks.subrange(0, ii) + seq![key] + ks.subrange(ii, ks.len() as int));
                    assert(containers@ =~= cs.subrange(0, ii) + seq![c] + cs.subrange(ii, cs.len() as int));
                    lemma_entries_concat(ks.subrange(0, ii), cs.subrange(0, ii), seq![key], seq![c]);
                    lemma_entries_concat(
                        ks.subrange(0, ii) + seq![key],
                        cs.subrange(0, ii) + seq![c],
                        ks.subrange(ii, ks.len() as int),
                        cs.subrange(ii, cs.len() as int),
                    );
                    lemma_entries_concat(
                        ks.subrange(0, ii),
                        cs.subrange(0, ii),
                        ks.subrange(ii, ks.len() as int),
                        cs.subrange(ii, cs.len() as int),
                    );
                    assert(ks =~= ks.subrange(0, ii) + ks.subrange(ii, ks.len() as int));
                    assert(cs =~= cs.subrange(0, ii) + cs.subrange(ii, cs.len() as int));
                    lemma_entries_single(key, c);
                    assert forall|y: u32| block(key, c@).contains(y) == (y == x) by {
                        lemma_key_low(x, 0, 0);
                        lemma_key_low(y, 0, 0);
                    }
                    assert(entries_set(keys@, containers@) =~= old(self)@.insert(x));
                    assert forall|m: int| 0 <= m < containers@.len() implies (
                    #[trigger] containers@[m]).wf() && containers@[m]@.len() > 0 by {
                        if m < ii {
                            assert(containers@[m] == cs[m]);
                        } else if m == ii {
                            lemma_len_bound(c@);
                            assert(c@.contains(low));
                        } else {
                            assert(containers@[m] == cs[m - 1]);
                        }
                    }
                    assert forall|t: int| 0 <= t < keys@.len() implies insert_entry(
                        *old(self),
                        x,
                        keys@[t],
                        #[trigger] containers@[t],
                    ) by {
                        if t < ii {
                            assert(keys@[t] == ks[t] && containers@[t] == cs[t]);
                            lemma_key_index(ks, t);
                            assert(ks.contains(ks[t]));
                        } else if t > ii {
                            assert(keys@[t] == ks[t - 1] && containers@[t] == cs[t - 1]);
                            lemma_key_index(ks, t - 1);
                            assert(ks.contains(ks[t - 1]));
                        }
                    }
                }
                true
            },
        };
        *self = RoaringBitmap { keys, containers };
        added
    }

    /// Removes `x`; returns whether it was present. A container left empty is dropped.
    pub fn remove(&mut self, x: u32) -> (removed: bool)
        ensures
            final(self).wf(),
            final(self)@ == old(self)@.remove(x),
            removed == old(self)@.contains(x),
            final(self).keys_seq().len() == final(self).containers_seq().len(),
            forall|t: int|
                0 <= t < final(self).keys_seq().len() ==> remove_entry(
                    *old(self),
                    x,
                    final(self).keys_seq()[t],
                    #[trigger] final(self).containers_seq()[t],
                ),
    {
        proof {
            use_type_invariant(&*self);
        }
        let (key, low) = split(x);
        let mut tmp = RoaringBitmap::new();
        std::mem::swap(self, &mut tmp);
        let RoaringBitmap { mut keys, mut containers } = tmp;
        let ghost ks = keys@;
        let ghost cs = containers@;
        let removed = match search_sorted(&keys, key) {
            Err(_) => {
                proof {
                    lemma_entries_absent(ks, cs, x);
                    assert(old(self)@.remove(x) =~= old(self)@);
                }
                false
            },
            Ok(i) => {
                let ghost ii = i as int;
                proof {
                    lemma_entries_locate(ks, cs, ii, x);
                    assert(cs[ii].wf());
                }
                let removed = containers[i].remove(low);
                let ghost cs1 = containers@;
                proof {
                    let c = cs1[ii];
                    assert(cs1 =~= cs.update(ii, c));
                    lemma_entries_update(ks, cs, ii, c);
                    assert forall|y: u32| entries_set(ks, cs1).contains(y) == old(self)@.remove(
                        x,
                    ).contains(y) by {
                        if key_of(y) == ks[ii] {
                            lemma_entries_locate(ks, cs, ii, y);
                            if low_of(y) == low {
                                lemma_key_low(x, 0, 0);
                                lemma_key_low(y, 0, 0);
                            }
                        }
                    }
                    assert(entries_set(ks, cs1) =~= old(self)@.remove(x));
                }
                if removed && containers[i].is_empty() {
                    // "Never empty": drop the entry once its last value is gone.
                    keys.remove(i);
                    containers.remove(i);
                    proof {
                        let c = cs1[ii];
                        lemma_sorted_remove(ks, ii);
                        let n = ks.len() as int;
                        assert(ks =~= ks.subrange(0, ii) + seq![ks[ii]] + ks.subrange(ii + 1, n));
                        assert(cs1 =~= cs1.subrange(0, ii) + seq![c] + cs1.subrange(ii + 1, n));
                        assert(keys@ =~= ks.subrange(0, ii) + ks.subrange(ii + 1, n));
                        assert(containers@ =~= cs1.subrange(0, ii) + cs1.subrange(ii + 1, n));
                        lemma_entries_concat(ks.subrange(0, ii), cs1.subrange(0, ii), seq![ks[ii]], seq![c]);
                        lemma_entries_concat(
                            ks.subrange(0, ii) + seq![ks[ii]],
                            cs1.subrange(0, ii) + seq![c],
                            ks.subrange(ii + 1, n),
                            cs1.subrange(ii + 1, n),
                        );
                        lemma_entries_concat(
                            ks.subrange(0, ii),
                            cs1.subrange(0, ii),
                            ks.subrange(ii + 1, n),
                            cs1.subrange(ii + 1, n),
                        );
                        lemma_entries_single(ks[ii], c);
                        lemma_len_bound(c@);
                        assert(block(ks[ii], c@) =~= Set::<u32>::empty());
                        assert(entries_set(keys@, containers@) =~= old(self)@.remove(x));
                        assert forall|m: int| 0 <= m < containers@.len() implies (
                        #[trigger] containers@[m]).wf() && containers@[m]@.len() > 0 by {
                            if m < ii {
                                assert(containers@[m] == cs[m]);
                            } else {
                                assert(containers@[m] == cs[m + 1]);
                            }
                        }
                    }
                } else {
                    proof {
                        let c = cs1[ii];
                        lemma_len_bound(c@);
                        if !removed {
                            assert(c@ =~= cs[ii]@);
                        }
                        assert forall|m: int| 0 <= m < containers@.len() implies (
                        #[trigger] containers@[m]).wf() && containers@[m]@.len() > 0 by {
                            if m == ii {
                                assert(c@.len() > 0);
                            }
                        }
                    }
                }
                removed
            },
        };
        *self = RoaringBitmap { keys, containers };
        removed
    }

    pub fn contains(&self, x: u32) -> (b: bool)
        ensures
            b == self@.contains(x),
    {
        proof {
            use_type_invariant(self);
        }
        let (key, low) = split(x);
        match search_sorted(&self.keys, key) {
            Ok(i) => {
                proof {
                    lemma_entries_locate(self.keys@, self.containers@, i as int, x);
                    assert(self.containers@[i as int].wf());
                }
                self.containers[i].contains(low)
            },
            Err(_) => {
                proof {
                    lemma_entries_absent(self.keys@, self.containers@, x);
                }
                false
            },
        }
    }

    /// Number of values held: the sum of the container cardinalities (no cached global
    /// count).
    pub fn len(&self) -> (n: u64)
        ensures
            n == self@.len(),
    {
        proof {
            use_type_invariant(self);
        }
        let ghost ks = self.keys@;
        let ghost cs = self.containers@;
        let mut total: u64 = 0;
        let mut k: usize = 0;
        proof {
            lemma_sorted_set_len(ks);
            lemma_len_bound(ks.to_set());
        }
        while k < self.containers.len()
            invariant
                self.wf(),
                ks == self.keys@,
                cs == self.containers@,
                ks.len() <= 65536,
                0 <= k <= cs.len(),
                total == sum_lens(cs.subrange(0, k as int)),
                total <= 65536 * k,
            decreases cs.len() - k,
        {
            proof {
                assert(cs[k as int].wf());
                lemma_len_bound(cs[k as int]@);
                assert(cs.subrange(0, k + 1).drop_last() =~= cs.subrange(0, k as int));
            }
            total = total + self.containers[k].cardinality() as u64;
            k = k + 1;
        }
        proof {
            assert(cs.subrange(0, cs.len() as int) =~= cs);
            lemma_entries_len(ks, cs);
        }
        total
    }

    pub fn is_empty(&self) -> (b: bool)
        ensures
            b == (self@.len() == 0),
    {
        proof {
            use_type_invariant(self);
        }
        // Valid because containers are never stored empty (the remove path drops them).
        proof {
            let ks = self.keys@;
            let cs = self.containers@;
            lemma_entries_len(ks, cs);
            if ks.len() > 0 {
                let c = cs[0];
                lemma_len_bound(c@);
                let l = c@.choose();
                assert(c@.contains(l));
                let x = joined(ks[0], l);
                lemma_key_low(0, ks[0], l);
                assert(entry_holds(ks, cs, 0, x));
                assert(self@.contains(x));
            } else {
                assert(self@ =~= Set::<u32>::empty());
            }
        }
        self.keys.len() == 0
    }

    /// Converts each container to its smallest representation.
    pub fn optimize(&mut self)
        ensures
            final(self).wf(),
            final(self)@ == old(self)@,
            final(self).keys_seq() == old(self).keys_seq(),
            final(self).containers_seq().len() == old(self).containers_seq().len(),
            forall|i: int|
                0 <= i < old(self).containers_seq().len() ==> {
                    let c = old(self).containers_seq()[i];
                    &&& (#[trigger] final(self).containers_seq()[i])@ == c@
                    &&& final(self).containers_seq()[i].repr() == optimized_repr(
                        c.repr(),
                        c@.len(),
                        num_runs_of(c@),
                    )
                },
    {
        proof {
            use_type_invariant(&*self);
        }
        let mut tmp = RoaringBitmap::new();
        std::mem::swap(self, &mut tmp);
        let RoaringBitmap { keys, mut containers } = tmp;
        let ghost ks = keys@;
        let ghost cs = containers@;
        let mut k: usize = 0;
        while k < containers.len()
            invariant
                ks == old(self).keys@,
                cs == old(self).containers@,
                entries_wf(ks, cs),
                keys@ == ks,
                containers@.len() == cs.len(),
                0 <= k <= cs.len(),
                forall|i: int|
                    0 <= i < cs.len() ==> (#[trigger] containers@[i]).wf()
                        && containers@[i]@ == cs[i]@,
                forall|i: int|
                    0 <= i < k ==> (#[trigger] containers@[i]).repr() == optimized_repr(
                        cs[i].repr(),
                        cs[i]@.len(),
                        num_runs_of(cs[i]@),
                    ),
                forall|i: int| k <= i < cs.len() ==> #[trigger] containers@[i] == cs[i],
            decreases cs.len() - k,
        {
            containers[k].optimize();
            k = k + 1;
        }
        proof {
            assert forall|x: u32| entries_set(keys@, containers@).contains(x) == old(self)@.contains(x) by {
                if ks.contains(key_of(x)) {
                    let m = choose|m: int| 0 <= m < ks.len() && ks[m] == key_of(x);
                    lemma_entries_locate(ks, containers@, m, x);
                    lemma_entries_locate(ks, cs, m, x);
                } else {
                    lemma_entries_absent(ks, containers@, x);
                    lemma_entries_absent(ks, cs, x);
                }
            }
            assert(entries_set(keys@, containers@) =~= old(self)@);
            assert forall|m: int| 0 <= m < containers@.len() implies (
            #[trigger] containers@[m]).wf() && containers@[m]@.len() > 0 by {
                assert(cs[m]@.len() > 0);
            }
        }
        *self = RoaringBitmap { keys, containers };
    }

    /// Set intersection: a merge over the sorted keys; only keys present in both operands can
    /// contribute, and empty results are dropped to keep containers non-empty.
    pub fn and(&self, other: &Self) -> (r: Self)
        ensures
            r.wf(),
            r@ == self@.intersect(other@),
            r.keys_seq().len() == r.containers_seq().len(),
            forall|i: int|
                0 <= i < r.keys_seq().len() ==> and_entry(
                    *self,
                    *other,
                    r.keys_seq()[i],
                    #[trigger] r.containers_seq()[i],
                ),
    {
        proof {
            use_type_invariant(self);
            use_type_invariant(other);
        }
        let ghost ks1 = self.keys@;
        let ghost cs1 = self.containers@;
        let ghost ks2 = other.keys@;
        let ghost cs2 = other.containers@;
        let la = self.keys.len();
        let lb = other.keys.len();
        let cap = if la < lb {
            la
        } else {
            lb
        };
        let mut keys: Vec<u16> = Vec::with_capacity(cap);
        let mut containers: Vec<Container> = Vec::with_capacity(cap);
        let mut i: usize = 0;
        let mut j: usize = 0;
        proof {
            lemma_entries_empty();
            assert(ks1.subrange(0, 0) =~= Seq::<u16>::empty());
            assert(cs1.subrange(0, 0) =~= Seq::<Container>::empty());
            assert(ks2.subrange(0, 0) =~= Seq::<u16>::empty());
            assert(cs2.subrange(0, 0) =~= Seq::<Container>::empty());
            assert(entries_set(keys@, containers@) =~= entries_set(
                ks1.subrange(0, 0),
                cs1.subrange(0, 0),
            ).intersect(other@).union(self@.intersect(entries_set(ks2.subrange(0, 0), cs2.subrange(0, 0)))));
        }
        while i < la && j < lb
            invariant
                self.wf(),
                other.wf(),
                ks1 == self.keys@,
                cs1 == self.containers@,
                ks2 == other.keys@,
                cs2 == other.containers@,
                la == ks1.len(),
                lb == ks2.len(),
                0 <= i <= la,
                0 <= j <= lb,
                entries_wf(keys@, containers@),
                forall|m: int|
                    0 <= m < keys@.len() ==> and_entry(
                        *self,
                        *other,
                        keys@[m],
                        #[trigger] containers@[m],
                    ),
                i < la && keys@.len() > 0 ==> keys@.last() < ks1[i as int],
                j < lb && keys@.len() > 0 ==> keys@.last() < ks2[j as int],
                j > 0 && i < la ==> ks2[j - 1] < ks1[i as int],
                i > 0 && j < lb ==> ks1[i - 1] < ks2[j as int],
                entries_set(keys@, containers@) == entries_set(
                    ks1.subrange(0, i as int),
                    cs1.subrange(0, i as int),
                ).intersect(other@).union(
                    self@.intersect(entries_set(ks2.subrange(0, j as int), cs2.subrange(0, j as int))),
                ),
            decreases la - i + lb - j,
        {
            let x = self.keys[i];
            let y = other.keys[j];
            proof {
                lemma_entries_prefix_step(ks1, cs1, i as int);
                lemma_entries_prefix_step(ks2, cs2, j as int);
                if i + 1 < la {
                    assert(ks1[i as int] < ks1[i + 1]);
                }
                if j + 1 < lb {
                    assert(ks2[j as int] < ks2[j + 1]);
                }
            }
            if x < y {
                proof {
                    lemma_sorted_gap(ks2, j as int, x);
                    lemma_entries_block(ks2, cs2, x, cs1[i as int]@);
                    assert(entries_set(keys@, containers@) =~= entries_set(
                        ks1.subrange(0, i + 1),
                        cs1.subrange(0, i + 1),
                    ).intersect(other@).union(
                        self@.intersect(entries_set(ks2.subrange(0, j as int), cs2.subrange(0, j as int))),
                    ));
                }
                i = i + 1;
            } else if x > y {
                proof {
                    lemma_sorted_gap(ks1, i as int, y);
                    lemma_entries_block(ks1, cs1, y, cs2[j as int]@);
                    assert(entries_set(keys@, containers@) =~= entries_set(
                        ks1.subrange(0, i as int),
                        cs1.subrange(0, i as int),
                    ).intersect(other@).union(
                        self@.intersect(entries_set(ks2.subrange(0, j + 1), cs2.subrange(0, j + 1))),
                    ));
                }
                j = j + 1;
            } else {
                proof {
                    assert(cs1[i as int].wf() && cs2[j as int].wf());
                }
                let c = self.containers[i].and(&other.containers[j]);
                let ghost before = entries_set(keys@, containers@);
                proof {
                    lemma_entries_block(ks2, cs2, x, cs1[i as int]@);
                    lemma_entries_block(ks1, cs1, x, cs2[j as int]@);
                    assert(other@.intersect(block(x, cs1[i as int]@)) =~= block(
                        x,
                        cs1[i as int]@.intersect(cs2[j as int]@),
                    ));
                    assert(self@.intersect(block(x, cs2[j as int]@)) =~= block(
                        x,
                        cs2[j as int]@.intersect(cs1[i as int]@),
                    ));
                    assert(cs2[j as int]@.intersect(cs1[i as int]@) =~= c@);
                    assert(cs1[i as int]@.intersect(cs2[j as int]@) =~= c@);
                }
                if !c.is_empty() {
                    proof {
                        lemma_entries_push(keys@, containers@, x, c);
                        lemma_len_bound(c@);
                    }
                    let ghost n = keys@.len() as int;
                    let ghost kprev = keys@;
                    let ghost cprev = containers@;
                    keys.push(x);
                    containers.push(c);
                    proof {
                        lemma_key_index(ks1, i as int);
                        lemma_key_index(ks2, j as int);
                        assert(ks1.contains(x) && ks2.contains(x)) by {
                            assert(ks1[i as int] == x && ks2[j as int] == x);
                        }
                        assert forall|m: int| 0 <= m < keys@.len() implies and_entry(
                            *self,
                            *other,
                            keys@[m],
                            #[trigger] containers@[m],
                        ) by {
                            if m < n {
                                assert(keys@[m] == kprev[m] && containers@[m] == cprev[m]);
                            }
                        }
                        let kk = keys@;
                        assert forall|a: int, b: int| 0 <= a < b < kk.len() implies kk[a] < kk[b] by {
                            if b == kk.len() - 1 && a < b - 1 {
                                assert(kk[a] < kk[b - 1]);
                            }
                        }
                        assert forall|m: int| 0 <= m < containers@.len() implies (
                        #[trigger] containers@[m]).wf() && containers@[m]@.len() > 0 by {
                        }
                    }
                } else {
                    proof {
                        lemma_len_bound(c@);
                        lemma_set_empty_equivalency_len(c@);
                        assert(block(x, c@) =~= Set::<u32>::empty());
                    }
                }
                proof {
                    let p1 = entries_set(ks1.subrange(0, i as int), cs1.subrange(0, i as int));
                    let p2 = entries_set(ks2.subrange(0, j as int), cs2.subrange(0, j as int));
                    let ba = block(x, cs1[i as int]@);
                    let bb = block(x, cs2[j as int]@);
                    assert(entries_set(keys@, containers@) =~= before.union(block(x, c@)));
                    assert(p1.union(ba).intersect(other@).union(self@.intersect(p2.union(bb)))
                        =~= before.union(other@.intersect(ba)).union(self@.intersect(bb)));
                    assert(entries_set(keys@, containers@) =~= entries_set(
                        ks1.subrange(0, i + 1),
                        cs1.subrange(0, i + 1),
                    ).intersect(other@).union(
                        self@.intersect(entries_set(ks2.subrange(0, j + 1), cs2.subrange(0, j + 1))),
                    ));
                }
                i = i + 1;
                j = j + 1;
            }
        }
        proof {
            lemma_entries_prefix_sub(ks1, cs1, i as int);
            lemma_entries_prefix_sub(ks2, cs2, j as int);
            if i == la {
                assert(ks1.subrange(0, la as int) =~= ks1 && cs1.subrange(0, la as int) =~= cs1);
            } else {
                assert(ks2.subrange(0, lb as int) =~= ks2 && cs2.subrange(0, lb as int) =~= cs2);
            }
        }
        let r = RoaringBitmap { keys, containers };
        proof {
            assert(r@ =~= self@.intersect(other@));
        }
        r
    }

    /// Set union: a merge over the sorted keys; keys in one operand carry their container
    /// over, keys in both merge through the container kernel.
    pub fn or(&self, other: &Self) -> (r: Self)
        ensures
            r.wf(),
            r@ == self@.union(other@),
            r.keys_seq().len() == r.containers_seq().len(),
            forall|i: int|
                0 <= i < r.keys_seq().len() ==> or_entry(
                    *self,
                    *other,
                    r.keys_seq()[i],
                    #[trigger] r.containers_seq()[i],
                ),
    {
        proof {
            use_type_invariant(self);
            use_type_invariant(other);
        }
        let ghost ks1 = self.keys@;
        let ghost cs1 = self.containers@;
        let ghost ks2 = other.keys@;
        let ghost cs2 = other.containers@;
        let la = self.keys.len();
        let lb = other.keys.len();
        let mut keys: Vec<u16> = Vec::new();
        let mut containers: Vec<Container> = Vec::new();
        let mut i: usize = 0;
        let mut j: usize = 0;
        proof {
            lemma_entries_empty();
            assert(ks1.subrange(0, 0) =~= Seq::<u16>::empty());
            assert(cs1.subrange(0, 0) =~= Seq::<Container>::empty());
            assert(ks2.subrange(0, 0) =~= Seq::<u16>::empty());
            assert(cs2.subrange(0, 0) =~= Seq::<Container>::empty());
            assert(entries_set(keys@, containers@) =~= entries_set(
                ks1.subrange(0, 0),
                cs1.subrange(0, 0),
            ).union(entries_set(ks2.subrange(0, 0), cs2.subrange(0, 0))));
        }
        while i < la || j < lb
            invariant
                self.wf(),
                other.wf(),
                ks1 == self.keys@,
                cs1 == self.containers@,
                ks2 == other.keys@,
                cs2 == other.containers@,
                la == ks1.len(),
                lb == ks2.len(),
                0 <= i <= la,
                0 <= j <= lb,
                entries_wf(keys@, containers@),
                j > 0 && i < la ==> ks2[j - 1] < ks1[i as int],
                i > 0 && j < lb ==> ks1[i - 1] < ks2[j as int],
                forall|m: int|
                    0 <= m < keys@.len() ==> or_entry(
                        *self,
                        *other,
                        keys@[m],
                        #[trigger] containers@[m],
                    ),
                i < la && keys@.len() > 0 ==> keys@.last() < ks1[i as int],
                j < lb && keys@.len() > 0 ==> keys@.last() < ks2[j as int],
                entries_set(keys@, containers@) == entries_set(
                    ks1.subrange(0, i as int),
                    cs1.subrange(0, i as int),
                ).union(entries_set(ks2.subrange(0, j as int), cs2.subrange(0, j as int))),
            decreases la - i + lb - j,
        {
            let ghost before = entries_set(keys@, containers@);
            let ghost p1 = entries_set(ks1.subrange(0, i as int), cs1.subrange(0, i as int));
            let ghost p2 = entries_set(ks2.subrange(0, j as int), cs2.subrange(0, j as int));
            let take_a = i < la && (j >= lb || self.keys[i] <= other.keys[j]);
            let take_b = j < lb && (i >= la || other.keys[j] <= self.keys[i]);
            proof {
                if i < la {
                    lemma_entries_prefix_step(ks1, cs1, i as int);
                    if i + 1 < la {
                        assert(ks1[i as int] < ks1[i + 1]);
                    }
                }
                if j < lb {
                    lemma_entries_prefix_step(ks2, cs2, j as int);
                    if j + 1 < lb {
                        assert(ks2[j as int] < ks2[j + 1]);
                    }
                }
            }
            let (k, c) = if take_a && take_b {
                proof {
                    assert(cs1[i as int].wf() && cs2[j as int].wf());
                }
                (self.keys[i], self.containers[i].or(&other.containers[j]))
            } else if take_a {
                (self.keys[i], self.containers[i].clone())
            } else {
                (other.keys[j], other.containers[j].clone())
            };
            proof {
                lemma_entries_push(keys@, containers@, k, c);
                if take_a {
                    assert(cs1[i as int].wf());
                    lemma_len_bound(cs1[i as int]@);
                }
                if take_b {
                    assert(cs2[j as int].wf());
                    lemma_len_bound(cs2[j as int]@);
                }
                lemma_len_bound(c@);
                if take_a && take_b {
                    lemma_len_subset(cs1[i as int]@, c@);
                }
            }
            let ghost n = keys@.len() as int;
            let ghost kprev = keys@;
            let ghost cprev = containers@;
            keys.push(k);
            containers.push(c);
            proof {
                if take_a {
                    lemma_key_index(ks1, i as int);
                    assert(ks1[i as int] == k);
                }
                if take_b {
                    lemma_key_index(ks2, j as int);
                    assert(ks2[j as int] == k);
                }
                if take_a && !take_b {
                    lemma_sorted_gap(ks2, j as int, k);
                }
                if take_b && !take_a {
                    lemma_sorted_gap(ks1, i as int, k);
                }
                assert forall|m: int| 0 <= m < keys@.len() implies or_entry(
                    *self,
                    *other,
                    keys@[m],
                    #[trigger] containers@[m],
                ) by {
                    if m < n {
                        assert(keys@[m] == kprev[m] && containers@[m] == cprev[m]);
                    }
                }
                let kk = keys@;
                assert forall|a: int, b: int| 0 <= a < b < kk.len() implies kk[a] < kk[b] by {
                    if b == kk.len() - 1 && a < b - 1 {
                        assert(kk[a] < kk[b - 1]);
                    }
                }
                assert forall|m: int| 0 <= m < containers@.len() implies (
                #[trigger] containers@[m]).wf() && containers@[m]@.len() > 0 by {
                }
                assert(entries_set(keys@, containers@) =~= before.union(block(k, c@)));
            }
            if take_a && take_b {
                proof {
                    assert(block(k, c@) =~= block(k, cs1[i as int]@).union(block(k, cs2[j as int]@)));
                    assert(entries_set(keys@, containers@) =~= entries_set(
                        ks1.subrange(0, i + 1),
                        cs1.subrange(0, i + 1),
                    ).union(entries_set(ks2.subrange(0, j + 1), cs2.subrange(0, j + 1))));
                }
                i = i + 1;
                j = j + 1;
            } else if take_a {
                proof {
                    assert(entries_set(keys@, containers@) =~= entries_set(
                        ks1.subrange(0, i + 1),
                        cs1.subrange(0, i + 1),
                    ).union(entries_set(ks2.subrange(0, j as int), cs2.subrange(0, j as int))));
                }
                i = i + 1;
            } else {
                proof {
                    assert(entries_set(keys@, containers@) =~= entries_set(
                        ks1.subrange(0, i as int),
                        cs1.subrange(0, i as int),
                    ).union(entries_set(ks2.subrange(0, j + 1), cs2.subrange(0, j + 1))));
                }
                j = j + 1;
            }
        }
        proof {
            assert(ks1.subrange(0, la as int) =~= ks1 && cs1.subrange(0, la as int) =~= cs1);
            assert(ks2.subrange(0, lb as int) =~= ks2 && cs2.subrange(0, lb as int) =~= cs2);
        }
        let r = RoaringBitmap { keys, containers };
        proof {
            assert(r@ =~= self@.union(other@));
        }
        r
    }

    /// Union of two bitmaps that it consumes: a container under a key of one of them only
    /// is moved over, not copied.
    fn merge_owned(a: RoaringBitmap, b: RoaringBitmap) -> (r: RoaringBitmap)
        ensures
            r.wf(),
            r@ == a@.union(b@),
            r.keys_seq().len() == r.containers_seq().len(),
            forall|i: int|
                0 <= i < r.keys_seq().len() ==> merge_entry(
                    a,
                    b,
                    r.keys_seq()[i],
                    #[trigger] r.containers_seq()[i],
                ),
    {
        proof {
            use_type_invariant(&a);
            use_type_invariant(&b);
        }
        let ghost ga = a;
        let ghost gb = b;
        let ghost ks1 = a.keys@;
        let ghost cs1 = a.containers@;
        let ghost ks2 = b.keys@;
        let ghost cs2 = b.containers@;
        let RoaringBitmap { keys: ka, containers: mut ca } = a;
        let RoaringBitmap { keys: kb, containers: mut cb } = b;
        let la = ka.len();
        let lb = kb.len();
        let mut keys: Vec<u16> = Vec::new();
        let mut containers: Vec<Container> = Vec::new();
        let mut i: usize = 0;
        let mut j: usize = 0;
        proof {
            lemma_entries_empty();
            assert(ks1.subrange(0, 0) =~= Seq::<u16>::empty());
            assert(cs1.subrange(0, 0) =~= Seq::<Container>::empty());
            assert(ks2.subrange(0, 0) =~= Seq::<u16>::empty());
            assert(cs2.subrange(0, 0) =~= Seq::<Container>::empty());
            assert(entries_set(keys@, containers@) =~= entries_set(
                ks1.subrange(0, 0),
                cs1.subrange(0, 0),
            ).union(entries_set(ks2.subrange(0, 0), cs2.subrange(0, 0))));
        }
        while i < la || j < lb
            invariant
                ga.wf(),
                gb.wf(),
                ks1 == ga.keys@,
                cs1 == ga.containers@,
                ks2 == gb.keys@,
                cs2 == gb.containers@,
                ka@ == ks1,
                kb@ == ks2,
                ca@.len() == la,
                cb@.len() == lb,
                forall|q: int| i <= q < la ==> #[trigger] ca@[q] == cs1[q],
                forall|q: int| j <= q < lb ==> #[trigger] cb@[q] == cs2[q],
                la == ks1.len(),
                lb == ks2.len(),
                0 <= i <= la,
                0 <= j <= lb,
                entries_wf(keys@, containers@),
                j > 0 && i < la ==> ks2[j - 1] < ks1[i as int],
                i > 0 && j < lb ==> ks1[i - 1] < ks2[j as int],
                forall|m: int|
                    0 <= m < keys@.len() ==> merge_entry(
                        ga,
                        gb,
                        keys@[m],
                        #[trigger] containers@[m],
                    ),
                i < la && keys@.len() > 0 ==> keys@.last() < ks1[i as int],
                j < lb && keys@.len() > 0 ==> keys@.last() < ks2[j as int],
                entries_set(keys@, containers@) == entries_set(
                    ks1.subrange(0, i as int),
                    cs1.subrange(0, i as int),
                ).union(entries_set(ks2.subrange(0, j as int), cs2.subrange(0, j as int))),
            decreases la - i + lb - j,
        {
            let ghost before = entries_set(keys@, containers@);
            let ghost p1 = entries_set(ks1.subrange(0, i as int), cs1.subrange(0, i as int));
            let ghost p2 = entries_set(ks2.subrange(0, j as int), cs2.subrange(0, j as int));
            let take_a = i < la && (j >= lb || ka[i] <= kb[j]);
            let take_b = j < lb && (i >= la || kb[j] <= ka[i]);
            proof {
                if i < la {
                    lemma_entries_prefix_step(ks1, cs1, i as int);
                    if i + 1 < la {
                        assert(ks1[i as int] < ks1[i + 1]);
                    }
                }
                if j < lb {
                    lemma_entries_prefix_step(ks2, cs2, j as int);
                    if j + 1 < lb {
                        assert(ks2[j as int] < ks2[j + 1]);
                    }
                }
            }
            let (k, c) = if take_a && take_b {
                proof {
                    assert(cs1[i as int].wf() && cs2[j as int].wf());
                    assert(ca@[i as int] == cs1[i as int] && cb@[j as int] == cs2[j as int]);
                }
                (ka[i], ca[i].or(&cb[j]))
            } else if take_a {
                let mut moved = Container::single(0);
                ca.set_and_swap(i, &mut moved);
                proof {
                    assert(moved == cs1[i as int]);
                }
                (ka[i], moved)
            } else {
                let mut moved = Container::single(0);
                cb.set_and_swap(j, &mut moved);
                proof {
                    assert(moved == cs2[j as int]);
                }
                (kb[j], moved)
            };
            proof {
                lemma_entries_push(keys@, containers@, k, c);
                if take_a {
                    assert(cs1[i as int].wf());
                    lemma_len_bound(cs1[i as int]@);
                }
                if take_b {
                    assert(cs2[j as int].wf());
                    lemma_len_bound(cs2[j as int]@);
                }
                lemma_len_bound(c@);
                if take_a && take_b {
                    lemma_len_subset(cs1[i as int]@, c@);
                }
            }
            let ghost n = keys@.len() as int;
            let ghost kprev = keys@;
            let ghost cprev = containers@;
            keys.push(k);
            containers.push(c);
            proof {
                if take_a {
                    lemma_key_index(ks1, i as int);
                    assert(ks1[i as int] == k);
                }
                if take_b {
                    lemma_key_index(ks2, j as int);
                    assert(ks2[j as int] == k);
                }
                if take_a && !take_b {
                    lemma_sorted_gap(ks2, j as int, k);
                }
                if take_b && !take_a {
                    lemma_sorted_gap(ks1, i as int, k);
                }
                assert forall|m: int| 0 <= m < keys@.len() implies merge_entry(
                    ga,
                    gb,
                    keys@[m],
                    #[trigger] containers@[m],
                ) by {
                    if m < n {
                        assert(keys@[m] == kprev[m] && containers@[m] == cprev[m]);
                    }
                }
                let kk = keys@;
                assert forall|a: int, b: int| 0 <= a < b < kk.len() implies kk[a] < kk[b] by {
                    if b == kk.len() - 1 && a < b - 1 {
                        assert(kk[a] < kk[b - 1]);
                    }
                }
                assert forall|m: int| 0 <= m < containers@.len() implies (
                #[trigger] containers@[m]).wf() && containers@[m]@.len() > 0 by {
                }
                assert(entries_set(keys@, containers@) =~= before.union(block(k, c@)));
            }
            if take_a && take_b {
                proof {
                    assert(block(k, c@) =~= block(k, cs1[i as int]@).union(block(k, cs2[j as int]@)));
                    assert(entries_set(keys@, containers@) =~= entries_set(
                        ks1.subrange(0, i + 1),
                        cs1.subrange(0, i + 1),
                    ).union(entries_set(ks2.subrange(0, j + 1), cs2.subrange(0, j + 1))));
                }
                i = i + 1;
                j = j + 1;
            } else if take_a {
                proof {
                    assert(entries_set(keys@, containers@) =~= entries_set(
                        ks1.subrange(0, i + 1),
                        cs1.subrange(0, i + 1),
                    ).union(entries_set(ks2.subrange(0, j as int), cs2.subrange(0, j as int))));
                }
                i = i + 1;
            } else {
                proof {
                    assert(entries_set(keys@, containers@) =~= entries_set(
                        ks1.subrange(0, i as int),
                        cs1.subrange(0, i as int),
                    ).union(entries_set(ks2.subrange(0, j + 1), cs2.subrange(0, j + 1))));
                }
                j = j + 1;
            }
        }
        proof {
            assert(ks1.subrange(0, la as int) =~= ks1 && cs1.subrange(0, la as int) =~= cs1);
            assert(ks2.subrange(0, lb as int) =~= ks2 && cs2.subrange(0, lb as int) =~= cs2);
        }
        let r = RoaringBitmap { keys, containers };
        proof {
            assert(r@ =~= ga@.union(gb@));
        }
        r
    }

    /// Reassembles one bitmap from per-shard bitmaps, merging the shards in one by one and
    /// moving their containers rather than copying them. Shards partition the key space, so
    /// in use their keys are disjoint, and then each container of the result is the one
    /// shard container under its key, in representation and contents. The result holds the
    /// union of their values either way.
    pub fn from_shards(shards: Vec<RoaringBitmap>) -> (r: Self)
        ensures
            r.wf(),
            r@ == union_of(shards@),
            keys_disjoint(shards@) ==> forall|t: int|
                0 <= t < r.keys_seq().len() ==> copied_entry(
                    shards@,
                    0,
                    r.keys_seq()[t],
                    #[trigger] r.containers_seq()[t],
                ),
    {
        let ghost orig = shards@;
        let mut rest = shards;
        let mut acc = RoaringBitmap::new();
        proof {
            assert(orig.subrange(0, orig.len() as int) =~= orig);
            assert(union_of(orig) =~= union_of(orig).union(acc@));
        }
        while rest.len() > 0
            invariant
                rest@.len() <= orig.len(),
                rest@ == orig.subrange(0, rest@.len() as int),
                acc.wf(),
                union_of(orig) == union_of(rest@).union(acc@),
                keys_disjoint(orig) ==> forall|t: int|
                    0 <= t < acc.keys_seq().len() ==> copied_entry(
                        orig,
                        rest@.len() as int,
                        acc.keys_seq()[t],
                        #[trigger] acc.containers_seq()[t],
                    ),
            decreases rest@.len(),
        {
            let ghost n = rest@.len() as int;
            let ghost before = rest@;
            let shard = rest.pop().unwrap();
            proof {
                use_type_invariant(&shard);
                assert(before.drop_last() =~= rest@);
                assert(before.last() == shard);
                assert(rest@ =~= orig.subrange(0, n - 1));
            }
            let ghost gs = shard;
            let ghost prev = acc;
            acc = RoaringBitmap::merge_owned(acc, shard);
            proof {
                assert(union_of(orig) =~= union_of(rest@).union(acc@));
                if keys_disjoint(orig) {
                    lemma_merge_copies(prev, gs, acc, orig, n - 1);
                }
            }
        }
        proof {
            assert(union_of(orig) =~= acc@);
        }
        acc
    }

    /// Re-checks the stored structure (keys sorted and unique, no empty container, each
    /// container's own checks, among them an array at most and a bitmap more than 4096
    /// values) and returns whether every check passed. The structure is always legal, so
    /// it always does.
    pub fn assert_invariants(&self) -> (ok: bool)
        ensures
            ok,
    {
        proof {
            use_type_invariant(self);
        }
        let mut ok = self.keys.len() == self.containers.len();
        let mut i: usize = 1;
        while i < self.keys.len()
            invariant
                self.wf(),
                1 <= i <= self.keys@.len() || self.keys@.len() == 0,
                ok,
            decreases self.keys@.len() - i,
        {
            if !(self.keys[i - 1] < self.keys[i]) {
                ok = false;
            }
            i = i + 1;
        }
        let mut k: usize = 0;
        while k < self.containers.len()
            invariant
                self.wf(),
                0 <= k <= self.containers@.len(),
                ok,
            decreases self.containers@.len() - k,
        {
            proof {
                assert(self.containers@[k as int].wf());
            }
            if self.containers[k].is_empty() {
                ok = false;
            }
            if !self.containers[k].assert_invariants() {
                ok = false;
            }
            k = k + 1;
        }
        ok
    }
}

impl BitAnd<&RoaringBitmap> for &RoaringBitmap {
    type Output = RoaringBitmap;

    fn bitand(self, rhs: &RoaringBitmap) -> (r: RoaringBitmap)
        ensures
            r@ == self@.intersect(rhs@),
    {
        self.and(rhs)
    }
}

impl BitAndSpecImpl<&RoaringBitmap> for &RoaringBitmap {
    /// The operator is specified by the `ensures` of `bitand`, not by a spec function.
    open spec fn obeys_bitand_spec() -> bool {
        false
    }

    open spec fn bitand_req(self, rhs: &RoaringBitmap) -> bool {
        true
    }

    open spec fn bitand_spec(self, rhs: &RoaringBitmap) -> RoaringBitmap {
        arbitrary()
    }
}

impl BitOr<&RoaringBitmap> for &RoaringBitmap {
    type Output = RoaringBitmap;

    fn bitor(self, rhs: &RoaringBitmap) -> (r: RoaringBitmap)
        ensures
            r@ == self@.union(rhs@),
    {
        self.or(rhs)
    }
}

impl BitOrSpecImpl<&RoaringBitmap> for &RoaringBitmap {
    /// The operator is specified by the `ensures` of `bitor`, not by a spec function.
    open spec fn obeys_bitor_spec() -> bool {
        false
    }

    open spec fn bitor_req(self, rhs: &RoaringBitmap) -> bool {
        true
    }

    open spec fn bitor_spec(self, rhs: &RoaringBitmap) -> RoaringBitmap {
        arbitrary()
    }
}

impl BitAndAssign<&RoaringBitmap> for RoaringBitmap {
    fn bitand_assign(&mut self, rhs: &RoaringBitmap)
        ensures
            final(self)@ == old(self)@.intersect(rhs@),
    {
        *self = self.and(rhs);
    }
}

impl BitOrAssign<&RoaringBitmap> for RoaringBitmap {
    fn bitor_assign(&mut self, rhs: &RoaringBitmap)
        ensures
            final(self)@ == old(self)@.union(rhs@),
    {
        *self = self.or(rhs);
    }
}

/// Intersection is contained in both operands, union contains both, and both operations
/// commute.
pub proof fn law_set_operations(a: Set<u32>, b: Set<u32>)
    ensures
        a.intersect(b).subset_of(a) && a.intersect(b).subset_of(b),
        a.subset_of(a.union(b)) && b.subset_of(a.union(b)),
        a.intersect(b) == b.intersect(a),
        a.union(b) == b.union(a),
{
    assert(a.intersect(b) =~= b.intersect(a));
    assert(a.union(b) =~= b.union(a));
}

} // verus!
