//! The mathematical model of the table: sequences of regions, their
//! well-formedness, and what each operation makes of them.
use vstd::prelude::*;

use crate::region::RegionDesc;

verus! {

/// Errors of the table's mutating operations.
#[derive(Clone, Copy, Debug, PartialEq, Eq, Structural)]
pub enum MemError {
    /// A new descriptor was needed and every slot is taken.
    CapacityExceeded,
    /// The range to remove is not contained in one tracked region.
    RangeNotTracked,
}

/// Length of the longest prefix of `s` whose entries all satisfy `p`.
pub open spec fn run_len(s: Seq<RegionDesc>, p: spec_fn(RegionDesc) -> bool) -> nat
    decreases s.len(),
{
    if s.len() == 0 || !p(s[0]) {
        0
    } else {
        1 + run_len(s.drop_first(), p)
    }
}

pub proof fn lemma_run_len(s: Seq<RegionDesc>, p: spec_fn(RegionDesc) -> bool)
    ensures
        run_len(s, p) <= s.len(),
        forall|i: int| 0 <= i < run_len(s, p) ==> p(#[trigger] s[i]),
        run_len(s, p) < s.len() ==> !p(s[run_len(s, p) as int]),
    decreases s.len(),
{
    if s.len() > 0 && p(s[0]) {
        let t = s.drop_first();
        lemma_run_len(t, p);
        assert forall|i: int| 0 <= i < run_len(s, p) implies p(#[trigger] s[i]) by {
            if i > 0 {
                assert(s[i] == t[i - 1]);
            }
        }
        if run_len(s, p) < s.len() {
            assert(s[run_len(s, p) as int] == t[run_len(t, p) as int]);
        }
    }
}

/// A prefix length is the run length once its entries satisfy `p` and the next does not.
pub proof fn lemma_run_len_is(s: Seq<RegionDesc>, p: spec_fn(RegionDesc) -> bool, n: int)
    requires
        0 <= n <= s.len(),
        forall|i: int| 0 <= i < n ==> p(#[trigger] s[i]),
        n < s.len() ==> !p(s[n]),
    ensures
        run_len(s, p) == n,
{
    lemma_run_len(s, p);
    if run_len(s, p) < n {
        assert(p(s[run_len(s, p) as int]));
    }
    if run_len(s, p) > n {
        assert(p(s[n]));
    }
}

/// Every entry is a region whose end fits in a `usize`, and the entries are
/// strictly ascending with at least one free address between neighbours.
pub open spec fn regions_wf(v: Seq<RegionDesc>) -> bool {
    &&& forall|i: int| 0 <= i < v.len() ==> (#[trigger] v[i]).occupied() && v[i].end_excl() <= usize::MAX
    &&& forall|i: int, j: int| 0 <= i < j < v.len() ==> (#[trigger] v[i]).end_excl() < (#[trigger] v[j]).base
}

/// Whether address `a` lies in one of the regions of `v`.
pub open spec fn covers(v: Seq<RegionDesc>, a: int) -> bool {
    exists|i: int| 0 <= i < v.len() && (#[trigger] v[i]).holds(a)
}

/// The slots `s` hold the regions `v` in their first slots and the sentinel in the rest.
pub open spec fn slots_hold(s: Seq<RegionDesc>, v: Seq<RegionDesc>) -> bool {
    &&& v.len() <= s.len()
    &&& forall|i: int| 0 <= i < v.len() ==> #[trigger] s[i] == v[i]
    &&& forall|i: int| v.len() <= i < s.len() ==> #[trigger] s[i] == RegionDesc::spec_missing()
}

/// The predicate "the slot is occupied".
pub open spec fn occupied_slot() -> spec_fn(RegionDesc) -> bool {
    |d: RegionDesc| d.occupied()
}

/// The number of leading occupied slots.
pub open spec fn used_len(s: Seq<RegionDesc>) -> nat {
    run_len(s, occupied_slot())
}

/// The regions that the slots `s` hold: their occupied prefix.
pub open spec fn regions_of(s: Seq<RegionDesc>) -> Seq<RegionDesc> {
    s.take(used_len(s) as int)
}

/// A well-formed slot array: at least one slot, an occupied prefix of
/// well-formed regions, and the sentinel everywhere after it.
pub open spec fn slots_wf(s: Seq<RegionDesc>) -> bool {
    &&& s.len() > 0
    &&& regions_wf(regions_of(s))
    &&& slots_hold(s, regions_of(s))
}

/// Slots that hold an occupied prefix of bounded regions and the sentinel
/// after it, whether or not the regions are yet sorted and apart.
pub open spec fn slots_loose(s: Seq<RegionDesc>) -> bool {
    &&& s.len() > 0
    &&& slots_hold(s, regions_of(s))
    &&& forall|i: int|
        0 <= i < regions_of(s).len() ==> (#[trigger] regions_of(s)[i]).occupied()
            && regions_of(s)[i].end_excl() <= usize::MAX
}

pub open spec fn max_int(a: int, b: int) -> int {
    if a >= b {
        a
    } else {
        b
    }
}

/// The number of leading regions that start at or before address `e`.
pub open spec fn reach_count(v: Seq<RegionDesc>, e: int) -> nat {
    run_len(v, |d: RegionDesc| d.base <= e)
}

/// Region `v[i]` absorbs the regions after it that start no later than its
/// exclusive end; the merged region keeps `v[i].base` and ends where the
/// last of them, or `v[i]` itself, ends.
pub open spec fn merge_view(v: Seq<RegionDesc>, i: int) -> Seq<RegionDesc> {
    let d = v[i];
    let k = i + 1 + reach_count(v.skip(i + 1), d.end_excl());
    let end = max_int(d.end_excl(), v[k - 1].end_excl());
    v.take(i) + seq![RegionDesc { base: d.base, size: (end - d.base) as usize }] + v.skip(k)
}

pub proof fn lemma_slots_hold(s: Seq<RegionDesc>, v: Seq<RegionDesc>)
    requires
        slots_hold(s, v),
        forall|i: int| 0 <= i < v.len() ==> (#[trigger] v[i]).occupied(),
    ensures
        used_len(s) == v.len(),
        regions_of(s) == v,
{
    let p = occupied_slot();
    assert forall|i: int| 0 <= i < v.len() implies p(#[trigger] s[i]) by {
        assert(s[i] == v[i]);
    }
    lemma_run_len_is(s, p, v.len() as int);
    assert(regions_of(s) =~= v);
}

pub proof fn lemma_slots_wf(s: Seq<RegionDesc>)
    requires
        slots_wf(s),
    ensures
        used_len(s) <= s.len(),
        regions_of(s).len() == used_len(s),
{
    lemma_run_len(s, occupied_slot());
}

pub open spec fn min_int(a: int, b: int) -> int {
    if a <= b {
        a
    } else {
        b
    }
}

/// The number of leading regions that end before address `b` with at least
/// one free address between.
pub open spec fn before_count(v: Seq<RegionDesc>, b: int) -> nat {
    run_len(v, |d: RegionDesc| d.end_excl() < b)
}

/// The regions of `v` together with `[b, b + s)`: the regions that touch or
/// overlap the new range are replaced by one region spanning them all.
pub open spec fn union_view(v: Seq<RegionDesc>, b: usize, s: usize) -> Seq<RegionDesc> {
    let e = b + s;
    let lo = before_count(v, b as int) as int;
    let hi = reach_count(v, e) as int;
    let start = if lo < hi {
        min_int(b as int, v[lo].base as int)
    } else {
        b as int
    };
    let end = if lo < hi {
        max_int(e, v[hi - 1].end_excl())
    } else {
        e
    };
    v.take(lo) + seq![RegionDesc { base: start as usize, size: (end - start) as usize }] + v.skip(hi)
}

/// What `add(b, s)` makes of the regions `v` in a table of `cap` slots.
pub open spec fn add_view(v: Seq<RegionDesc>, cap: nat, b: usize, s: usize) -> Seq<RegionDesc> {
    if s == 0 || v.len() >= cap {
        v
    } else {
        union_view(v, b, s)
    }
}

/// What `add(b, s)` returns on the regions `v` in a table of `cap` slots.
pub open spec fn add_outcome(v: Seq<RegionDesc>, cap: nat, s: usize) -> Result<(), MemError> {
    if s > 0 && v.len() >= cap {
        Err(MemError::CapacityExceeded)
    } else {
        Ok(())
    }
}

/// Replacing `v[i..k]` by one region that keeps a gap to both neighbours
/// keeps the regions well formed.
pub proof fn lemma_wf_splice(v: Seq<RegionDesc>, i: int, k: int, m: RegionDesc)
    requires
        regions_wf(v),
        0 <= i <= k <= v.len(),
        m.occupied(),
        m.end_excl() <= usize::MAX,
        i > 0 ==> v[i - 1].end_excl() < m.base,
        k < v.len() ==> m.end_excl() < v[k].base,
    ensures
        regions_wf(v.take(i) + seq![m] + v.skip(k)),
{
    let r = v.take(i) + seq![m] + v.skip(k);
    assert forall|x: int| 0 <= x < r.len() implies (#[trigger] r[x]).occupied() && r[x].end_excl()
        <= usize::MAX by {
        if x > i {
            assert(r[x] == v[x - i - 1 + k]);
        }
    }
    assert forall|x: int, y: int| 0 <= x < y < r.len() implies (#[trigger] r[x]).end_excl() < (
    #[trigger] r[y]).base by {
        if y < i {
        } else if y == i {
            assert(v[x].end_excl() <= v[i - 1].end_excl()) by {
                if x < i - 1 {
                    assert(v[x].end_excl() < v[i - 1].base);
                }
            }
        } else {
            assert(r[y] == v[y - i - 1 + k]);
            if x < i {
                assert(v[x].end_excl() < v[y - i - 1 + k].base);
            } else if x == i {
                assert(v[k].base <= v[y - i - 1 + k].base) by {
                    if y - i - 1 + k > k {
                        assert(v[k].end_excl() < v[y - i - 1 + k].base);
                    }
                }
            } else {
                assert(r[x] == v[x - i - 1 + k]);
            }
        }
    }
}

/// The end of the region that `[b, e)` becomes once inserted at `idx` and
/// merged with the regions up to `hi`.
pub open spec fn grown_end(w: Seq<RegionDesc>, e: int, idx: int, hi: int) -> int {
    if hi > idx {
        max_int(e, w[hi - 1].end_excl())
    } else {
        e
    }
}

/// The regions that start at or before `b + s` run at least up to the first
/// one that starts at or after `b`.
proof fn lemma_reach(w: Seq<RegionDesc>, b: usize, s: usize, idx: int)
    requires
        0 <= idx <= w.len(),
        forall|t: int| 0 <= t < idx ==> (#[trigger] w[t]).base < b,
    ensures
        idx <= reach_count(w, b + s) <= w.len(),
        reach_count(w, b + s) < w.len() ==> w[reach_count(w, b + s) as int].base > b + s,
{
    let e = b + s;
    let pe = |d: RegionDesc| d.base <= e;
    lemma_run_len(w, pe);
    let hi = reach_count(w, e) as int;
    if hi < idx {
        assert(w[hi].base < b);
    }
}

/// Inserted before the first region that starts at or after `b`, the new
/// region merged at its insertion point absorbs exactly the regions it reaches.
proof fn lemma_add_first(w: Seq<RegionDesc>, b: usize, s: usize, idx: int)
    requires
        regions_wf(w),
        s > 0,
        b + s <= usize::MAX,
        0 <= idx <= w.len(),
        forall|t: int| 0 <= t < idx ==> (#[trigger] w[t]).base < b,
        idx < w.len() ==> w[idx].base >= b,
    ensures
        ({
            let w1 = w.insert(idx, RegionDesc { base: b, size: s });
            let hi = reach_count(w, b + s) as int;
            let m1 = RegionDesc { base: b, size: (grown_end(w, b + s, idx, hi) - b) as usize };
            &&& w1.remove(idx) == w
            &&& idx + 1 < w1.len() ==> w1[idx].base <= w1[idx + 1].base
            &&& idx <= hi <= w.len()
            &&& hi < w.len() ==> w[hi].base > b + s
            &&& merge_view(w1, idx) == w.take(idx) + seq![m1] + w.skip(hi)
        }),
{
    let n = RegionDesc { base: b, size: s };
    let e = b + s;
    let w1 = w.insert(idx, n);
    assert(w1.remove(idx) =~= w);
    let pe = |d: RegionDesc| d.base <= e;
    lemma_run_len(w, pe);
    let hi = reach_count(w, e) as int;
    if hi < idx {
        assert(w[hi].base < b);
    }
    let ws = w.skip(idx);
    assert(w1.skip(idx + 1) =~= ws);
    assert forall|t: int| 0 <= t < hi - idx implies pe(#[trigger] ws[t]) by {
        assert(ws[t] == w[t + idx]);
    }
    if hi < w.len() {
        assert(ws[hi - idx] == w[hi]);
    }
    lemma_run_len_is(ws, pe, hi - idx);
    if hi > idx {
        assert(w1[hi] == w[hi - 1]);
    } else {
        assert(w1[hi] == n);
    }
    let m1 = RegionDesc { base: b, size: (grown_end(w, e, idx, hi) - b) as usize };
    assert(merge_view(w1, idx) =~= w.take(idx) + seq![m1] + w.skip(hi));
}

/// The count of regions before `b` is `idx - 1` when the region before the
/// insertion point reaches `b`, else `idx`.
proof fn lemma_add_before(w: Seq<RegionDesc>, b: usize, idx: int)
    requires
        regions_wf(w),
        0 <= idx <= w.len(),
        forall|t: int| 0 <= t < idx ==> (#[trigger] w[t]).base < b,
        idx < w.len() ==> w[idx].base >= b,
    ensures
        before_count(w, b as int) == if idx > 0 && w[idx - 1].end_excl() >= b {
            idx - 1
        } else {
            idx
        },
{
    let pb = |d: RegionDesc| d.end_excl() < b;
    let lo = if idx > 0 && w[idx - 1].end_excl() >= b {
        idx - 1
    } else {
        idx
    };
    assert forall|t: int| 0 <= t < lo implies pb(#[trigger] w[t]) by {
        if t < idx - 1 {
            assert(w[t].end_excl() < w[idx - 1].base);
        }
    }
    lemma_run_len_is(w, pb, lo);
}

/// A merge at `i` that absorbs exactly the one region after it.
proof fn lemma_merge_one(u: Seq<RegionDesc>, i: int)
    requires
        0 <= i,
        i + 1 < u.len(),
        u[i + 1].base <= u[i].end_excl(),
        i + 2 < u.len() ==> u[i + 2].base > u[i].end_excl(),
    ensures
        merge_view(u, i) == u.take(i) + seq![
            RegionDesc {
                base: u[i].base,
                size: (max_int(u[i].end_excl(), u[i + 1].end_excl()) - u[i].base) as usize,
            },
        ] + u.skip(i + 2),
{
    let us = u.skip(i + 1);
    let pl = |d: RegionDesc| d.base <= u[i].end_excl();
    assert(us[0] == u[i + 1]);
    if i + 2 < u.len() {
        assert(us[1] == u[i + 2]);
    }
    lemma_run_len_is(us, pl, 1);
}

/// Region `w[i - 1]` reaches `m1` put in place of `w[i..hi]`, and not past it:
/// merging at `i - 1` absorbs `m1` alone.
proof fn lemma_splice_merge(w: Seq<RegionDesc>, i: int, hi: int, m1: RegionDesc)
    requires
        0 < i <= hi <= w.len(),
        m1.base <= w[i - 1].end_excl(),
        hi < w.len() ==> w[hi].base > w[i - 1].end_excl(),
    ensures
        merge_view(w.take(i) + seq![m1] + w.skip(hi), i - 1) == w.take(i - 1) + seq![
            RegionDesc {
                base: w[i - 1].base,
                size: (max_int(w[i - 1].end_excl(), m1.end_excl()) - w[i - 1].base) as usize,
            },
        ] + w.skip(hi),
{
    let u = w.take(i) + seq![m1] + w.skip(hi);
    assert(u[i - 1] == w[i - 1]);
    assert(u[i] == m1);
    if hi < w.len() {
        assert(u[i + 1] == w[hi]);
    }
    lemma_merge_one(u, i - 1);
    assert(u.take(i - 1) =~= w.take(i - 1));
    assert(u.skip(i + 1) =~= w.skip(hi));
}

/// The case where the region before the insertion point reaches `b`: it
/// absorbs the merged new region, and the whole is `union_view`.
proof fn lemma_add_left(w: Seq<RegionDesc>, b: usize, s: usize, idx: int)
    requires
        regions_wf(w),
        s > 0,
        b + s <= usize::MAX,
        0 < idx <= w.len(),
        w[idx - 1].end_excl() >= b,
        forall|t: int| 0 <= t < idx ==> (#[trigger] w[t]).base < b,
        idx < w.len() ==> w[idx].base >= b,
    ensures
        ({
            let hi = reach_count(w, b + s) as int;
            let m1 = RegionDesc { base: b, size: (grown_end(w, b + s, idx, hi) - b) as usize };
            let u = w.take(idx) + seq![m1] + w.skip(hi);
            &&& regions_wf(u.remove(idx - 1))
            &&& merge_view(u, idx - 1) == union_view(w, b, s)
        }),
{
    lemma_reach(w, b, s, idx);
    lemma_add_before(w, b, idx);
    let e = b + s;
    let hi = reach_count(w, e) as int;
    let m1 = RegionDesc { base: b, size: (grown_end(w, e, idx, hi) - b) as usize };
    let u = w.take(idx) + seq![m1] + w.skip(hi);
    let lr = w[idx - 1];
    if idx - 1 > 0 {
        assert(w[idx - 2].end_excl() < lr.base);
    }
    if hi < w.len() && hi > idx {
        assert(w[hi - 1].end_excl() < w[hi].base);
    }
    lemma_wf_splice(w, idx - 1, hi, m1);
    assert(u.remove(idx - 1) =~= w.take(idx - 1) + seq![m1] + w.skip(hi));
    let end2 = max_int(lr.end_excl(), m1.end_excl());
    let m2 = RegionDesc { base: lr.base, size: (end2 - lr.base) as usize };
    if hi < w.len() {
        assert(lr.end_excl() < w[hi].base);
    }
    lemma_splice_merge(w, idx, hi, m1);
    assert(union_view(w, b, s) =~= w.take(idx - 1) + seq![m2] + w.skip(hi)) by {
        if hi > idx {
            assert(lr.end_excl() < w[hi - 1].base);
        }
    }
}

/// The steps of `add`: the new region goes in before the first region that
/// starts at or after `b` and absorbs the regions after it that it reaches;
/// the region before it absorbs the result when it reaches it. Together the
/// steps give `union_view`.
pub proof fn lemma_add_steps(w: Seq<RegionDesc>, b: usize, s: usize, idx: int)
    requires
        regions_wf(w),
        s > 0,
        b + s <= usize::MAX,
        0 <= idx <= w.len(),
        forall|t: int| 0 <= t < idx ==> (#[trigger] w[t]).base < b,
        idx < w.len() ==> w[idx].base >= b,
    ensures
        ({
            let w1 = w.insert(idx, RegionDesc { base: b, size: s });
            let u = merge_view(w1, idx);
            &&& w1.remove(idx) == w
            &&& idx + 1 < w1.len() ==> w1[idx].base <= w1[idx + 1].base
            &&& idx < u.len()
            &&& (idx > 0 && u[idx - 1].end_excl() >= u[idx].base) ==> {
                &&& regions_wf(u.remove(idx - 1))
                &&& u[idx - 1].base <= u[idx].base
                &&& merge_view(u, idx - 1) == union_view(w, b, s)
            }
            &&& !(idx > 0 && u[idx - 1].end_excl() >= u[idx].base) ==> u == union_view(w, b, s)
        }),
{
    lemma_add_first(w, b, s, idx);
    lemma_add_before(w, b, idx);
    let e = b + s;
    let hi = reach_count(w, e) as int;
    let m1 = RegionDesc { base: b, size: (grown_end(w, e, idx, hi) - b) as usize };
    let u = w.take(idx) + seq![m1] + w.skip(hi);
    assert(u[idx] == m1);
    if idx > 0 {
        assert(u[idx - 1] == w[idx - 1]);
    }
    if idx > 0 && w[idx - 1].end_excl() >= b {
        lemma_add_left(w, b, s, idx);
    } else {
        assert(u =~= union_view(w, b, s));
    }
}

/// The union of well-formed regions with a non-empty range is well formed.
pub proof fn lemma_union_wf(w: Seq<RegionDesc>, b: usize, s: usize)
    requires
        regions_wf(w),
        s > 0,
        b + s <= usize::MAX,
    ensures
        regions_wf(union_view(w, b, s)),
{
    let e = b + s;
    let pe = |d: RegionDesc| d.base <= e;
    let pb = |d: RegionDesc| d.end_excl() < b;
    lemma_run_len(w, pe);
    lemma_run_len(w, pb);
    let lo = before_count(w, b as int) as int;
    let hi = reach_count(w, e) as int;
    if hi < lo {
        assert(pb(w[hi]));
    }
    let start = if lo < hi {
        min_int(b as int, w[lo].base as int)
    } else {
        b as int
    };
    let end = if lo < hi {
        max_int(e, w[hi - 1].end_excl())
    } else {
        e
    };
    let m = RegionDesc { base: start as usize, size: (end - start) as usize };
    if lo > 0 && lo < w.len() {
        assert(w[lo - 1].end_excl() < w[lo].base);
    }
    if hi < w.len() && lo < hi {
        assert(w[hi - 1].end_excl() < w[hi].base);
    }
    lemma_wf_splice(w, lo, hi, m);
}

/// The number of leading regions that end at or before address `b`: the
/// index of the only region that can hold a range starting at `b`.
pub open spec fn holder_index(v: Seq<RegionDesc>, b: int) -> nat {
    run_len(v, |d: RegionDesc| d.end_excl() <= b)
}

/// Whether the non-empty range `[b, b + s)` lies within `d`.
pub open spec fn within(d: RegionDesc, b: usize, s: usize) -> bool {
    s > 0 && d.base <= b && b + s <= d.end_excl()
}

/// Whether `d` shares an address with `[b, b + s)`.
pub open spec fn overlaps(d: RegionDesc, b: usize, s: usize) -> bool {
    s > 0 && d.base < b + s && b < d.end_excl()
}

/// Whether some region of `v` shares an address with `[b, b + s)`.
pub open spec fn intersects(v: Seq<RegionDesc>, b: usize, s: usize) -> bool {
    exists|i: int| 0 <= i < v.len() && overlaps(#[trigger] v[i], b, s)
}

/// Whether one region of `v` holds all of `[b, b + s)`.
pub open spec fn is_tracked(v: Seq<RegionDesc>, b: usize, s: usize) -> bool {
    exists|i: int| 0 <= i < v.len() && within(#[trigger] v[i], b, s)
}

/// Whether removing `[b, b + s)` leaves addresses of its holder on both sides.
pub open spec fn splits(v: Seq<RegionDesc>, b: usize, s: usize) -> bool {
    let d = v[holder_index(v, b as int) as int];
    d.base < b && b + s < d.end_excl()
}

/// The regions of `v` without `[b, b + s)`, taken out of the region that
/// holds it: that region goes, shrinks from its front or its back, or is
/// split in two.
pub open spec fn carve_view(v: Seq<RegionDesc>, b: usize, s: usize) -> Seq<RegionDesc> {
    let i = holder_index(v, b as int) as int;
    let d = v[i];
    if d.base == b && d.size == s {
        v.remove(i)
    } else if d.base == b {
        v.update(i, RegionDesc { base: (b + s) as usize, size: (d.size - s) as usize })
    } else if b + s == d.end_excl() {
        v.update(i, RegionDesc { base: d.base, size: (d.size - s) as usize })
    } else {
        v.update(i, RegionDesc { base: d.base, size: (b - d.base) as usize }).insert(
            i + 1,
            RegionDesc { base: (b + s) as usize, size: (d.end_excl() - (b + s)) as usize },
        )
    }
}

/// What `remove(b, s)` returns on the regions `v` in a table of `cap` slots.
pub open spec fn remove_outcome(v: Seq<RegionDesc>, cap: nat, b: usize, s: usize) -> Result<
    (),
    MemError,
> {
    if !is_tracked(v, b, s) {
        Err(MemError::RangeNotTracked)
    } else if splits(v, b, s) && v.len() >= cap {
        Err(MemError::CapacityExceeded)
    } else {
        Ok(())
    }
}

/// What `remove(b, s)` makes of the regions `v` in a table of `cap` slots.
pub open spec fn remove_view(v: Seq<RegionDesc>, cap: nat, b: usize, s: usize) -> Seq<RegionDesc> {
    if remove_outcome(v, cap, b, s) is Ok {
        carve_view(v, b, s)
    } else {
        v
    }
}

/// Only the region at `holder_index` can hold a range starting at `b`.
pub proof fn lemma_holder(w: Seq<RegionDesc>, b: usize, s: usize)
    requires
        regions_wf(w),
    ensures
        holder_index(w, b as int) <= w.len(),
        forall|t: int| 0 <= t < holder_index(w, b as int) ==> (#[trigger] w[t]).end_excl() <= b,
        holder_index(w, b as int) < w.len() ==> w[holder_index(w, b as int) as int].end_excl() > b,
        is_tracked(w, b, s) <==> (holder_index(w, b as int) < w.len() && within(
            w[holder_index(w, b as int) as int],
            b,
            s,
        )),
{
    let p = |d: RegionDesc| d.end_excl() <= b;
    lemma_run_len(w, p);
    let i = holder_index(w, b as int) as int;
    if is_tracked(w, b, s) {
        let j = choose|j: int| 0 <= j < w.len() && within(#[trigger] w[j], b, s);
        if j < i {
            assert(p(w[j]));
        }
        if j > i {
            assert(w[i].end_excl() < w[j].base);
        }
    }
    if i < w.len() && within(w[i], b, s) {
        assert(0 <= i < w.len() && within(w[i], b, s));
    }
}

/// Dropping one region keeps the regions well formed.
proof fn lemma_wf_remove(w: Seq<RegionDesc>, i: int)
    requires
        regions_wf(w),
        0 <= i < w.len(),
    ensures
        regions_wf(w.remove(i)),
{
    let r = w.remove(i);
    assert forall|x: int, y: int| 0 <= x < y < r.len() implies (#[trigger] r[x]).end_excl() < (
    #[trigger] r[y]).base by {
        let xx = if x < i {
            x
        } else {
            x + 1
        };
        let yy = if y < i {
            y
        } else {
            y + 1
        };
        assert(r[x] == w[xx] && r[y] == w[yy]);
    }
}

/// Splitting region `i` in two around a gap keeps the regions well formed.
proof fn lemma_wf_split(w: Seq<RegionDesc>, i: int, f: RegionDesc, g: RegionDesc)
    requires
        regions_wf(w),
        0 <= i < w.len(),
        f.occupied(),
        g.occupied(),
        f.base == w[i].base,
        f.end_excl() < g.base,
        g.end_excl() == w[i].end_excl(),
    ensures
        regions_wf(w.update(i, f).insert(i + 1, g)),
{
    if i > 0 {
        assert(w[i - 1].end_excl() < w[i].base);
    }
    if i + 1 < w.len() {
        assert(w[i].end_excl() < w[i + 1].base);
    }
    lemma_wf_splice(w, i, i + 1, f);
    let w2 = w.take(i) + seq![f] + w.skip(i + 1);
    assert(w2[i] == f);
    if i + 1 < w.len() {
        assert(w2[i + 1] == w[i + 1]);
    }
    lemma_wf_splice(w2, i + 1, i + 1, g);
    assert(w.update(i, f).insert(i + 1, g) =~= w2.take(i + 1) + seq![g] + w2.skip(i + 1));
}

/// Shrinking region `i` to a non-empty part of itself keeps the regions well formed.
proof fn lemma_wf_shrink(w: Seq<RegionDesc>, i: int, m: RegionDesc)
    requires
        regions_wf(w),
        0 <= i < w.len(),
        m.occupied(),
        w[i].base <= m.base,
        m.end_excl() <= w[i].end_excl(),
    ensures
        regions_wf(w.update(i, m)),
{
    if i > 0 {
        assert(w[i - 1].end_excl() < w[i].base);
    }
    if i + 1 < w.len() {
        assert(w[i].end_excl() < w[i + 1].base);
    }
    lemma_wf_splice(w, i, i + 1, m);
    assert(w.update(i, m) =~= w.take(i) + seq![m] + w.skip(i + 1));
}

/// Taking a tracked range out of well-formed regions leaves them well formed.
pub proof fn lemma_carve_wf(w: Seq<RegionDesc>, b: usize, s: usize)
    requires
        regions_wf(w),
        is_tracked(w, b, s),
    ensures
        regions_wf(carve_view(w, b, s)),
{
    lemma_holder(w, b, s);
    let i = holder_index(w, b as int) as int;
    let d = w[i];
    if d.base == b && d.size == s {
        lemma_wf_remove(w, i);
    } else if d.base == b {
        lemma_wf_shrink(w, i, RegionDesc { base: (b + s) as usize, size: (d.size - s) as usize });
    } else if b + s == d.end_excl() {
        lemma_wf_shrink(w, i, RegionDesc { base: d.base, size: (d.size - s) as usize });
    } else {
        lemma_wf_split(
            w,
            i,
            RegionDesc { base: d.base, size: (b - d.base) as usize },
            RegionDesc { base: (b + s) as usize, size: (d.end_excl() - (b + s)) as usize },
        );
    }
}

} // verus!
