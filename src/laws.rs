//! Laws that relate the table's operations, stated over the model.
use vstd::prelude::*;

use crate::model::{
    add_outcome, add_view, before_count, carve_view, covers, holder_index, intersects, is_tracked,
    lemma_run_len, lemma_run_len_is, lemma_union_wf, max_int, min_int, overlaps, reach_count,
    regions_wf, remove_outcome, remove_view, splits, union_view, within,
};
use crate::region::RegionDesc;

verus! {

/// The shape of `union_view`: the regions before `lo` stay, one region takes
/// the place of `lo..hi`, and the regions from `hi` on stay; the merged region
/// spans `[b, b + s)`.
proof fn lemma_union_shape(w: Seq<RegionDesc>, b: usize, s: usize)
    requires
        regions_wf(w),
        s > 0,
        b + s <= usize::MAX,
    ensures
        ({
            let lo = before_count(w, b as int) as int;
            let hi = reach_count(w, b + s) as int;
            let u = union_view(w, b, s);
            &&& 0 <= lo <= hi <= w.len()
            &&& u.len() == w.len() - (hi - lo) + 1
            &&& forall|t: int| 0 <= t < lo ==> (#[trigger] w[t]).end_excl() < b
            &&& hi < w.len() ==> w[hi].base > b + s
            &&& forall|t: int| 0 <= t < lo ==> #[trigger] u[t] == w[t]
            &&& forall|t: int| hi <= t < w.len() ==> #[trigger] u[t - hi + lo + 1] == w[t]
            &&& u[lo].base <= b
            &&& u[lo].end_excl() >= b + s
        }),
{
    let e = b + s;
    let pe = |d: RegionDesc| d.base <= e;
    let pb = |d: RegionDesc| d.end_excl() < b;
    lemma_run_len(w, pe);
    lemma_run_len(w, pb);
    let lo = before_count(w, b as int) as int;
    let hi = reach_count(w, e) as int;
    if hi < lo {
        assert(pb(w[hi]));
    }
    let u = union_view(w, b, s);
    assert forall|t: int| hi <= t < w.len() implies #[trigger] u[t - hi + lo + 1] == w[t] by {
        assert(u[t - hi + lo + 1] == w.skip(hi)[t - hi]);
    }
}

/// Adding a range twice in a row leaves the regions as adding it once does.
pub proof fn lemma_add_idempotent(w: Seq<RegionDesc>, cap: nat, b: usize, s: usize)
    requires
        regions_wf(w),
        w.len() <= cap,
        b + s <= usize::MAX,
    ensures
        add_view(add_view(w, cap, b, s), cap, b, s) == add_view(w, cap, b, s),
{
    if s > 0 && w.len() < cap {
        let e = b + s;
        lemma_union_shape(w, b, s);
        lemma_union_wf(w, b, s);
        let u = union_view(w, b, s);
        let lo = before_count(w, b as int) as int;
        let hi = reach_count(w, e) as int;
        let pe = |d: RegionDesc| d.base <= e;
        let pb = |d: RegionDesc| d.end_excl() < b;
        assert forall|t: int| 0 <= t < lo implies pb(#[trigger] u[t]) by {
            assert(u[t] == w[t]);
        }
        lemma_run_len_is(u, pb, lo);
        assert forall|t: int| 0 <= t < lo + 1 implies pe(#[trigger] u[t]) by {
            if t < lo {
                assert(u[t] == w[t]);
            }
        }
        if lo + 1 < u.len() {
            assert(u[lo + 1] == w[hi]);
        }
        lemma_run_len_is(u, pe, lo + 1);
        assert(union_view(u, b, s) =~= u);
    }
}

/// A range that shares no address with the regions is held by none of them.
proof fn lemma_untracked(w: Seq<RegionDesc>, b: usize, s: usize)
    requires
        !intersects(w, b, s),
    ensures
        !is_tracked(w, b, s),
{
    if is_tracked(w, b, s) {
        let j = choose|j: int| 0 <= j < w.len() && within(#[trigger] w[j], b, s);
        assert(overlaps(w[j], b, s));
    }
}

/// Each region that a range free of tracked addresses touches either ends
/// where the range starts or starts where it ends; at most one of each.
proof fn lemma_touching(w: Seq<RegionDesc>, b: usize, s: usize)
    requires
        regions_wf(w),
        s > 0,
        b + s <= usize::MAX,
        !intersects(w, b, s),
    ensures
        ({
            let lo = before_count(w, b as int) as int;
            let hi = reach_count(w, b + s) as int;
            &&& lo <= hi <= lo + 2
            &&& hi == lo + 2 ==> w[lo].end_excl() == b && w[lo + 1].base == b + s
            &&& hi == lo + 1 ==> (w[lo].end_excl() == b || w[lo].base == b + s)
        }),
{
    let e = b + s;
    lemma_union_shape(w, b, s);
    let pe = |d: RegionDesc| d.base <= e;
    let pb = |d: RegionDesc| d.end_excl() < b;
    lemma_run_len(w, pe);
    lemma_run_len(w, pb);
    let lo = before_count(w, b as int) as int;
    let hi = reach_count(w, e) as int;
    assert forall|t: int| lo <= t < hi implies (#[trigger] w[t]).end_excl() == b || w[t].base == e by {
        assert(!overlaps(w[t], b, s));
        if t > lo {
            assert(w[lo].end_excl() < w[t].base);
        }
    }
    if hi >= lo + 2 {
        assert(w[lo].end_excl() < w[lo + 1].base);
        if w[lo].base == e {
            assert(pe(w[lo + 1]));
        }
    }
    if hi >= lo + 3 {
        assert(w[lo + 1].end_excl() < w[lo + 2].base);
        assert(pe(w[lo + 2]));
    }
}

/// Taking `[b, b + s)` back out of the region that absorbed it restores the
/// regions that it touched.
proof fn lemma_carve_back(w: Seq<RegionDesc>, u: Seq<RegionDesc>, lo: int, hi: int, b: usize, s: usize)
    requires
        regions_wf(w),
        s > 0,
        b + s <= usize::MAX,
        0 <= lo <= hi <= w.len(),
        hi <= lo + 2,
        u == w.take(lo) + seq![u[lo]] + w.skip(hi),
        holder_index(u, b as int) == lo,
        hi == lo ==> u[lo].base == b && u[lo].size == s,
        hi == lo + 1 ==> (w[lo].end_excl() == b && u[lo].base == w[lo].base && u[lo].end_excl() == b
            + s) || (w[lo].base == b + s && u[lo].base == b && u[lo].end_excl() == w[lo].end_excl()),
        hi == lo + 2 ==> w[lo].end_excl() == b && w[lo + 1].base == b + s && u[lo].base == w[lo].base
            && u[lo].end_excl() == w[lo + 1].end_excl(),
    ensures
        carve_view(u, b, s) == w,
        splits(u, b, s) ==> hi == lo + 2,
{
    if hi == lo {
        assert(carve_view(u, b, s) =~= w);
    } else if hi == lo + 1 {
        assert(w[lo].occupied());
        assert(carve_view(u, b, s) =~= w);
    } else {
        assert(w[lo].occupied() && w[lo + 1].occupied());
        assert(carve_view(u, b, s) =~= w);
    }
}

/// Adding a range that shares no address with the regions and then removing
/// it gives the regions back as they were; the removal succeeds whenever
/// the addition did.
pub proof fn lemma_add_remove_round_trip(w: Seq<RegionDesc>, cap: nat, b: usize, s: usize)
    requires
        regions_wf(w),
        w.len() <= cap,
        s > 0,
        b + s <= usize::MAX,
        !intersects(w, b, s),
    ensures
        remove_view(add_view(w, cap, b, s), cap, b, s) == w,
        (add_outcome(w, cap, s) is Ok) ==> (remove_outcome(add_view(w, cap, b, s), cap, b, s) is Ok),
{
    if w.len() >= cap {
        lemma_untracked(w, b, s);
    } else {
        let e = b + s;
        lemma_union_shape(w, b, s);
        lemma_touching(w, b, s);
        let u = union_view(w, b, s);
        let lo = before_count(w, b as int) as int;
        let hi = reach_count(w, e) as int;
        let pb = |d: RegionDesc| d.end_excl() <= b;
        assert forall|t: int| 0 <= t < lo implies pb(#[trigger] u[t]) by {
            assert(u[t] == w[t]);
        }
        lemma_run_len_is(u, pb, lo);
        assert(within(u[lo], b, s));
        assert(u =~= w.take(lo) + seq![u[lo]] + w.skip(hi));
        lemma_carve_back(w, u, lo, hi, b, s);
    }
}

/// A successful `add(b, s)` tracks exactly the addresses tracked before
/// together with those of the range.
pub proof fn lemma_add_covers(w: Seq<RegionDesc>, b: usize, s: usize, a: int)
    requires
        regions_wf(w),
        s > 0,
        b + s <= usize::MAX,
    ensures
        covers(union_view(w, b, s), a) <==> covers(w, a) || (b <= a < b + s),
{
    let e = b + s;
    lemma_union_shape(w, b, s);
    let u = union_view(w, b, s);
    let lo = before_count(w, b as int) as int;
    let hi = reach_count(w, e) as int;
    let pe = |d: RegionDesc| d.base <= e;
    let pb = |d: RegionDesc| d.end_excl() < b;
    lemma_run_len(w, pe);
    lemma_run_len(w, pb);
    let m = u[lo];
    if lo < hi {
        assert(m.base == min_int(b as int, w[lo].base as int));
        assert(m.end_excl() == max_int(e, w[hi - 1].end_excl()));
    } else {
        assert(m.base == b && m.end_excl() == e);
    }
    if covers(u, a) {
        let x = choose|x: int| 0 <= x < u.len() && (#[trigger] u[x]).holds(a);
        if x < lo {
            assert(w[x].holds(a));
        } else if x > lo {
            assert(u[x] == w[x - lo - 1 + hi]);
            assert(w[x - lo - 1 + hi].holds(a));
        } else if a < b {
            assert(w[lo].holds(a));
        } else if a >= e {
            assert(pe(w[hi - 1]));
            assert(w[hi - 1].holds(a));
        }
    }
    if covers(w, a) {
        let x = choose|x: int| 0 <= x < w.len() && (#[trigger] w[x]).holds(a);
        if x < lo {
            assert(u[x].holds(a));
        } else if x >= hi {
            assert(u[x - hi + lo + 1].holds(a));
        } else {
            if x > lo {
                assert(w[lo].end_excl() < w[x].base);
            }
            if x < hi - 1 {
                assert(w[x].end_excl() < w[hi - 1].base);
            }
            assert(u[lo].holds(a));
        }
    }
    if b <= a < e {
        assert(u[lo].holds(a));
    }
}

/// An address in region `x` lies in no other region.
proof fn lemma_only_one(w: Seq<RegionDesc>, x: int, y: int, a: int)
    requires
        regions_wf(w),
        0 <= x < w.len(),
        0 <= y < w.len(),
        x != y,
        w[x].holds(a),
    ensures
        !w[y].holds(a),
{
    if x < y {
        assert(w[x].end_excl() < w[y].base);
    } else {
        assert(w[y].end_excl() < w[x].base);
    }
}

/// The addresses tracked once region `i` is replaced by `m`.
proof fn lemma_covers_update(w: Seq<RegionDesc>, i: int, m: RegionDesc, a: int)
    requires
        regions_wf(w),
        0 <= i < w.len(),
    ensures
        covers(w.update(i, m), a) <==> (covers(w, a) && !w[i].holds(a)) || m.holds(a),
{
    let c = w.update(i, m);
    if covers(c, a) {
        let x = choose|x: int| 0 <= x < c.len() && (#[trigger] c[x]).holds(a);
        if x != i {
            assert(w[x].holds(a));
            lemma_only_one(w, x, i, a);
        }
    }
    if covers(w, a) && !w[i].holds(a) {
        let x = choose|x: int| 0 <= x < w.len() && (#[trigger] w[x]).holds(a);
        assert(c[x].holds(a));
    }
    if m.holds(a) {
        assert(c[i].holds(a));
    }
}

/// The addresses tracked once region `i` is dropped.
proof fn lemma_covers_remove(w: Seq<RegionDesc>, i: int, a: int)
    requires
        regions_wf(w),
        0 <= i < w.len(),
    ensures
        covers(w.remove(i), a) <==> covers(w, a) && !w[i].holds(a),
{
    let c = w.remove(i);
    if covers(c, a) {
        let x = choose|x: int| 0 <= x < c.len() && (#[trigger] c[x]).holds(a);
        let xx = if x < i {
            x
        } else {
            x + 1
        };
        assert(c[x] == w[xx]);
        lemma_only_one(w, xx, i, a);
    }
    if covers(w, a) && !w[i].holds(a) {
        let x = choose|x: int| 0 <= x < w.len() && (#[trigger] w[x]).holds(a);
        if x < i {
            assert(c[x].holds(a));
        } else {
            assert(c[x - 1] == w[x]);
        }
    }
}

/// The addresses tracked once region `i` is split into `f` and `g`.
proof fn lemma_covers_split(w: Seq<RegionDesc>, i: int, f: RegionDesc, g: RegionDesc, a: int)
    requires
        regions_wf(w),
        0 <= i < w.len(),
    ensures
        covers(w.update(i, f).insert(i + 1, g), a) <==> (covers(w, a) && !w[i].holds(a))
            || f.holds(a) || g.holds(a),
{
    let v = w.update(i, f);
    lemma_covers_update(w, i, f, a);
    let c = v.insert(i + 1, g);
    if covers(c, a) {
        let x = choose|x: int| 0 <= x < c.len() && (#[trigger] c[x]).holds(a);
        if x <= i {
            assert(v[x].holds(a));
        } else if x > i + 1 {
            assert(c[x] == v[x - 1]);
            assert(v[x - 1].holds(a));
        }
    }
    if covers(v, a) {
        let x = choose|x: int| 0 <= x < v.len() && (#[trigger] v[x]).holds(a);
        if x <= i {
            assert(c[x].holds(a));
        } else {
            assert(c[x + 1] == v[x]);
        }
    }
    if g.holds(a) {
        assert(c[i + 1].holds(a));
    }
}

/// A successful `remove(b, s)` tracks exactly the addresses tracked before
/// that lie outside the range.
pub proof fn lemma_remove_covers(w: Seq<RegionDesc>, b: usize, s: usize, a: int)
    requires
        regions_wf(w),
        is_tracked(w, b, s),
    ensures
        covers(carve_view(w, b, s), a) <==> covers(w, a) && !(b <= a < b + s),
{
    crate::model::lemma_holder(w, b, s);
    let i = holder_index(w, b as int) as int;
    let d = w[i];
    if b <= a < b + s {
        assert(d.holds(a));
    }
    if d.holds(a) {
        assert(covers(w, a));
    }
    if d.base == b && d.size == s {
        lemma_covers_remove(w, i, a);
    } else if d.base == b {
        lemma_covers_update(w, i, RegionDesc { base: (b + s) as usize, size: (d.size - s) as usize }, a);
    } else if b + s == d.end_excl() {
        lemma_covers_update(w, i, RegionDesc { base: d.base, size: (d.size - s) as usize }, a);
    } else {
        lemma_covers_split(
            w,
            i,
            RegionDesc { base: d.base, size: (b - d.base) as usize },
            RegionDesc { base: (b + s) as usize, size: (d.end_excl() - (b + s)) as usize },
            a,
        );
    }
}

} // verus!
