//! The region table: a fixed number of slots holding sorted, disjoint,
//! non-touching regions in an occupied prefix.
use vstd::prelude::*;

use crate::model::{
    add_outcome, add_view, carve_view, intersects, is_tracked, lemma_add_steps, lemma_carve_wf,
    lemma_holder, lemma_run_len, lemma_run_len_is, lemma_slots_hold, lemma_slots_wf, max_int,
    merge_view, occupied_slot, overlaps, reach_count, regions_of, regions_wf, remove_outcome,
    remove_view, slots_hold, slots_loose, slots_wf, used_len, within, MemError,
};
use crate::region::RegionDesc;

verus! {

/// A fixed-capacity table of regions.
pub struct Memblock {
    descriptors: Vec<RegionDesc>,
}

impl View for Memblock {
    type V = Seq<RegionDesc>;

    /// The regions held, in slot order.
    open spec fn view(&self) -> Seq<RegionDesc> {
        regions_of(self.slots())
    }
}

impl Memblock {
    /// All slots, occupied or not.
    pub closed spec fn slots(&self) -> Seq<RegionDesc> {
        self.descriptors@
    }

    /// The table's invariant: an occupied prefix of sorted, apart regions.
    pub open spec fn wf(&self) -> bool {
        slots_wf(self.slots())
    }

    /// The number of slots.
    pub open spec fn spec_capacity(&self) -> nat {
        self.slots().len()
    }

    /// An empty table of `capacity` slots.
    pub fn new(capacity: usize) -> (r: Self)
        requires
            capacity > 0,
        ensures
            r.wf(),
            r@ == Seq::<RegionDesc>::empty(),
            r.spec_capacity() == capacity,
    {
        let mut descriptors: Vec<RegionDesc> = Vec::new();
        let mut i: usize = 0;
        while i < capacity
            invariant
                i <= capacity,
                descriptors@.len() == i,
                forall|j: int| 0 <= j < i ==> #[trigger] descriptors@[j] == RegionDesc::spec_missing(),
            decreases capacity - i,
        {
            descriptors.push(RegionDesc::missing());
            i += 1;
        }
        let r = Memblock { descriptors };
        proof {
            lemma_slots_hold(r.slots(), Seq::empty());
        }
        r
    }

    /// The number of leading occupied slots.
    pub fn size(&self) -> (r: usize)
        ensures
            r == used_len(self.slots()),
            r <= self.spec_capacity(),
    {
        let mut count: usize = 0;
        while count < self.descriptors.len()
            invariant
                count <= self.descriptors@.len(),
                forall|j: int| 0 <= j < count ==> (#[trigger] self.descriptors@[j]).occupied(),
            ensures
                count <= self.descriptors@.len(),
                forall|j: int| 0 <= j < count ==> (#[trigger] self.descriptors@[j]).occupied(),
                count < self.descriptors@.len() ==> !self.descriptors@[count as int].occupied(),
            decreases self.descriptors@.len() - count,
        {
            if self.descriptors[count].is_empty() {
                break;
            }
            count += 1;
        }
        proof {
            lemma_run_len_is(self.slots(), occupied_slot(), count as int);
        }
        count
    }

    /// The number of slots.
    pub fn capacity(&self) -> (r: usize)
        ensures
            r == self.spec_capacity(),
    {
        self.descriptors.len()
    }

    /// Moves every slot after `idx` one position toward the head, overwriting
    /// slot `idx`, and empties the last slot.
    pub fn shift_left(&mut self, idx: usize)
        requires
            idx < old(self).slots().len(),
        ensures
            final(self).slots() == old(self).slots().remove(idx as int).push(RegionDesc::spec_missing()),
    {
        let len = self.descriptors.len();
        let mut i: usize = idx + 1;
        while i < len
            invariant
                idx + 1 <= i <= len,
                len == old(self).slots().len(),
                self.descriptors@.len() == len,
                forall|j: int| 0 <= j < idx ==> #[trigger] self.descriptors@[j] == old(self).slots()[j],
                forall|j: int| idx <= j < i - 1 ==> #[trigger] self.descriptors@[j] == old(self).slots()[j + 1],
                forall|j: int| i - 1 <= j < len ==> #[trigger] self.descriptors@[j] == old(self).slots()[j],
            decreases len - i,
        {
            let d = self.descriptors[i];
            self.descriptors.set(i - 1, d);
            i += 1;
        }
        self.descriptors.set(len - 1, RegionDesc::missing());
        assert(self.slots() =~= old(self).slots().remove(idx as int).push(RegionDesc::spec_missing()));
    }

    /// Moves every slot at or after `idx` one position toward the tail and
    /// empties slot `idx`; fails, changing nothing, when the last slot is occupied.
    pub fn shift_right(&mut self, idx: usize) -> (r: Result<(), MemError>)
        requires
            idx < old(self).slots().len(),
        ensures
            old(self).slots().last().occupied() ==> r == Err::<(), MemError>(MemError::CapacityExceeded)
                && final(self).slots() == old(self).slots(),
            !old(self).slots().last().occupied() ==> r is Ok && final(self).slots()
                == old(self).slots().insert(idx as int, RegionDesc::spec_missing()).drop_last(),
    {
        let len = self.descriptors.len();
        if !self.descriptors[len - 1].is_empty() {
            return Err(MemError::CapacityExceeded);
        }
        let mut i: usize = len - 1;
        while i > idx
            invariant
                idx <= i < len,
                len == old(self).slots().len(),
                self.descriptors@.len() == len,
                forall|j: int| 0 <= j <= i ==> #[trigger] self.descriptors@[j] == old(self).slots()[j],
                forall|j: int| i < j < len ==> #[trigger] self.descriptors@[j] == old(self).slots()[j - 1],
            decreases i,
        {
            let d = self.descriptors[i - 1];
            self.descriptors.set(i, d);
            i -= 1;
        }
        self.descriptors.set(idx, RegionDesc::missing());
        assert(self.slots() =~= old(self).slots().insert(idx as int, RegionDesc::spec_missing()).drop_last());
        Ok(())
    }

    /// Writes `desc` into slot `idx`, first shifting the slots from `idx` on
    /// toward the tail when slot `idx` is occupied.
    pub fn insert(&mut self, idx: usize, desc: RegionDesc) -> (r: Result<(), MemError>)
        requires
            idx < old(self).slots().len(),
        ensures
            !old(self).slots()[idx as int].occupied() ==> r is Ok
                && final(self).slots() == old(self).slots().update(idx as int, desc),
            old(self).slots()[idx as int].occupied() && old(self).slots().last().occupied() ==> r
                == Err::<(), MemError>(MemError::CapacityExceeded) && final(self).slots() == old(self).slots(),
            old(self).slots()[idx as int].occupied() && !old(self).slots().last().occupied() ==> r is Ok
                && final(self).slots() == old(self).slots().insert(idx as int, desc).drop_last(),
    {
        if self.descriptors[idx].is_empty() {
            self.descriptors.set(idx, desc);
            Ok(())
        } else {
            match self.shift_right(idx) {
                Err(e) => Err(e),
                Ok(()) => {
                    self.descriptors.set(idx, desc);
                    assert(self.slots() =~= old(self).slots().insert(idx as int, desc).drop_last());
                    Ok(())
                },
            }
        }
    }

    /// Coalesces slot `idx` with the slots after it for as long as the next
    /// one touches or overlaps it, compacting the absorbed slots away.
    pub fn merge(&mut self, idx: usize)
        requires
            slots_loose(old(self).slots()),
            idx < old(self)@.len(),
            regions_wf(old(self)@.remove(idx as int)),
            idx + 1 < old(self)@.len() ==> old(self)@[idx as int].base <= old(self)@[idx + 1].base,
        ensures
            final(self).slots().len() == old(self).slots().len(),
            slots_loose(final(self).slots()),
            final(self)@ == merge_view(old(self)@, idx as int),
    {
        let ghost v = self@;
        let ghost n = v.len();
        let ghost e = v[idx as int].end_excl();
        let ghost mut j: int = idx + 1;
        let len = self.descriptors.len();
        loop
            invariant
                len == self.descriptors@.len() == old(self).slots().len(),
                v == old(self)@,
                n == v.len(),
                e == v[idx as int].end_excl(),
                idx < n,
                regions_wf(v.remove(idx as int)),
                idx + 1 < n ==> v[idx as int].base <= v[idx + 1].base,
                forall|i: int| 0 <= i < n ==> (#[trigger] v[i]).occupied() && v[i].end_excl() <= usize::MAX,
                idx + 1 <= j <= n,
                slots_hold(self.slots(), v.take(idx as int).push(self.slots()[idx as int]) + v.skip(j)),
                self.slots()[idx as int].base == v[idx as int].base,
                self.slots()[idx as int].end_excl() == max_int(e, v[j - 1].end_excl()),
                forall|t: int| idx + 1 <= t < j ==> (#[trigger] v[t]).base <= e,
            ensures
                idx + 1 <= j <= n,
                slots_hold(self.slots(), v.take(idx as int).push(self.slots()[idx as int]) + v.skip(j)),
                self.slots()[idx as int].base == v[idx as int].base,
                self.slots()[idx as int].end_excl() == max_int(e, v[j - 1].end_excl()),
                forall|t: int| idx + 1 <= t < j ==> (#[trigger] v[t]).base <= e,
                j < n ==> v[j].base > e,
            decreases n - j,
        {
            proof {
                if idx + 1 < j && j < n {
                    let w = v.remove(idx as int);
                    assert(w[j - 2] == v[j - 1] && w[j - 1] == v[j]);
                }
                if idx + 1 < j {
                    let w = v.remove(idx as int);
                    if idx + 1 < j - 1 {
                        assert(w[idx as int] == v[idx + 1] && w[j - 2] == v[j - 1]);
                    }
                }
            }
            if idx + 1 >= len {
                break;
            }
            let subject = self.descriptors[idx + 1];
            if subject.is_empty() {
                break;
            }
            let object = self.descriptors[idx];
            assert(object.base <= subject.base);
            if object.end() + 1 < subject.base {
                break;
            }
            assert(j < n);
            let grown = if subject.end() + 1 - object.base > object.size {
                subject.end() + 1 - object.base
            } else {
                object.size
            };
            self.descriptors.set(idx, RegionDesc { base: object.base, size: grown });
            self.shift_left(idx + 1);
            proof {
                j = j + 1;
            }
        }
        proof {
            let p = |d: RegionDesc| d.base <= e;
            let vs = v.skip(idx + 1);
            assert forall|t: int| 0 <= t < j - idx - 1 implies p(#[trigger] vs[t]) by {
                assert(vs[t] == v[t + idx + 1]);
            }
            if j < n {
                assert(vs[j - idx - 1] == v[j]);
            }
            lemma_run_len_is(vs, p, j - idx - 1);
            assert(reach_count(vs, e) == j - idx - 1);
            let m = merge_view(v, idx as int);
            let ph = v.take(idx as int).push(self.slots()[idx as int]) + v.skip(j);
            assert(m =~= ph);
            lemma_slots_hold(self.slots(), ph);
        }
    }

    /// Adds `[base, base + size)` to the tracked addresses, coalescing it with
    /// every region it touches or overlaps.
    pub fn add(&mut self, base: usize, size: usize) -> (r: Result<(), MemError>)
        requires
            old(self).wf(),
            base + size <= usize::MAX,
        ensures
            final(self).wf(),
            final(self).spec_capacity() == old(self).spec_capacity(),
            r == add_outcome(old(self)@, old(self).spec_capacity(), size),
            final(self)@ == add_view(old(self)@, old(self).spec_capacity(), base, size),
    {
        if size == 0 {
            return Ok(());
        }
        let ghost w = self@;
        proof {
            lemma_slots_wf(self.slots());
        }
        let n = self.size();
        let cap = self.capacity();
        let mut idx: usize = 0;
        while idx < n && self.descriptors[idx].base < base
            invariant
                idx <= n,
                n == w.len(),
                w == self@,
                self.wf(),
                forall|t: int| 0 <= t < idx ==> (#[trigger] w[t]).base < base,
            decreases n - idx,
        {
            idx += 1;
        }
        if idx >= cap {
            return Err(MemError::CapacityExceeded);
        }
        let desc = RegionDesc { base, size };
        match self.insert(idx, desc) {
            Err(e) => {
                return Err(e);
            },
            Ok(()) => {},
        }
        proof {
            lemma_add_steps(w, base, size, idx as int);
            let w1 = w.insert(idx as int, desc);
            assert(forall|i: int| 0 <= i < w1.len() ==> (#[trigger] w1[i]).occupied() && w1[i].end_excl() <= usize::MAX) by {
                assert forall|i: int| 0 <= i < w1.len() implies (#[trigger] w1[i]).occupied() && w1[i].end_excl() <= usize::MAX by {
                    if i > idx {
                        assert(w1[i] == w[i - 1]);
                    } else if i < idx {
                        assert(w1[i] == w[i]);
                    }
                }
            }
            assert(slots_hold(self.slots(), w1));
            lemma_slots_hold(self.slots(), w1);
        }
        self.merge(idx);
        if idx > 0 && self.descriptors[idx - 1].end() + 1 >= self.descriptors[idx].base {
            self.merge(idx - 1);
        }
        proof {
            crate::model::lemma_union_wf(w, base, size);
        }
        Ok(())
    }

    /// Takes `[base, base + size)` out of the one region that holds all of it.
    pub fn remove(&mut self, base: usize, size: usize) -> (r: Result<(), MemError>)
        requires
            old(self).wf(),
        ensures
            final(self).wf(),
            final(self).spec_capacity() == old(self).spec_capacity(),
            r == remove_outcome(old(self)@, old(self).spec_capacity(), base, size),
            final(self)@ == remove_view(old(self)@, old(self).spec_capacity(), base, size),
    {
        let ghost w = self@;
        proof {
            lemma_slots_wf(self.slots());
            lemma_holder(w, base, size);
            lemma_slots_hold(self.slots(), w);
        }
        let n = self.size();
        let cap = self.capacity();
        let mut i: usize = 0;
        while i < n && self.descriptors[i].end() < base
            invariant
                i <= n,
                n == w.len(),
                w == self@,
                self.wf(),
                forall|t: int| 0 <= t < i ==> (#[trigger] w[t]).end_excl() <= base,
            decreases n - i,
        {
            i += 1;
        }
        proof {
            lemma_run_len_is(w, |d: RegionDesc| d.end_excl() <= base, i as int);
        }
        if i == n || size == 0 {
            return Err(MemError::RangeNotTracked);
        }
        let d = self.descriptors[i];
        if !(d.base <= base && size <= d.size - (base - d.base)) {
            return Err(MemError::RangeNotTracked);
        }
        assert(within(w[i as int], base, size));
        let ghost target = carve_view(w, base, size);
        proof {
            lemma_carve_wf(w, base, size);
        }
        if d.base == base && d.size == size {
            self.shift_left(i);
            assert(slots_hold(self.slots(), target));
        } else if d.base == base {
            self.descriptors.set(i, RegionDesc { base: base + size, size: d.size - size });
            assert(slots_hold(self.slots(), target));
        } else if d.end() + 1 == base + size {
            self.descriptors.set(i, RegionDesc { base: d.base, size: d.size - size });
            assert(slots_hold(self.slots(), target));
        } else {
            if n >= cap {
                return Err(MemError::CapacityExceeded);
            }
            let front = RegionDesc { base: d.base, size: base - d.base };
            let tail = RegionDesc { base: base + size, size: d.end() + 1 - (base + size) };
            match self.insert(i + 1, tail) {
                Err(e) => {
                    return Err(e);
                },
                Ok(()) => {},
            }
            assert(slots_hold(self.slots(), w.insert(i + 1, tail)));
            self.descriptors.set(i, front);
            assert(slots_hold(self.slots(), target));
        }
        proof {
            lemma_slots_hold(self.slots(), target);
        }
        Ok(())
    }

    /// Whether `[base, base + size)` shares an address with a tracked region.
    pub fn is_intersecting(&self, base: usize, size: usize) -> (r: bool)
        requires
            self.wf(),
        ensures
            r == intersects(self@, base, size),
    {
        let ghost w = self@;
        proof {
            lemma_slots_wf(self.slots());
            lemma_slots_hold(self.slots(), w);
        }
        if size == 0 || self.descriptors[0].is_empty() {
            return false;
        }
        let first = self.descriptors[0];
        if base < first.base && size <= first.base - base {
            assert forall|t: int| 0 <= t < w.len() implies !overlaps(#[trigger] w[t], base, size) by {
                if t > 0 {
                    assert(w[0].end_excl() < w[t].base);
                }
            }
            return false;
        }
        let n = self.size();
        let mut i: usize = 0;
        while i < n
            invariant
                i <= n,
                n == w.len(),
                w == self@,
                self.wf(),
                size > 0,
                forall|t: int| 0 <= t < i ==> !overlaps(#[trigger] w[t], base, size),
            decreases n - i,
        {
            let d = self.descriptors[i];
            if (d.base <= base || d.base - base < size) && base <= d.end() {
                assert(overlaps(w[i as int], base, size));
                return true;
            }
            i += 1;
        }
        false
    }

    /// Whether `[base, base + size)` is non-empty and lies within one tracked region.
    pub fn is_subarea(&self, base: usize, size: usize) -> (r: bool)
        requires
            self.wf(),
        ensures
            r == is_tracked(self@, base, size),
    {
        let ghost w = self@;
        proof {
            lemma_slots_wf(self.slots());
            lemma_slots_hold(self.slots(), w);
        }
        if size == 0 || self.descriptors[0].is_empty() {
            return false;
        }
        let n = self.size();
        let mut i: usize = 0;
        while i < n
            invariant
                i <= n,
                n == w.len(),
                w == self@,
                self.wf(),
                size > 0,
                forall|t: int| 0 <= t < i ==> !within(#[trigger] w[t], base, size),
            decreases n - i,
        {
            let d = self.descriptors[i];
            if d.range().contains(&base) && size <= d.size - (base - d.base) {
                assert(within(w[i as int], base, size));
                return true;
            }
            i += 1;
        }
        false
    }

    /// The regions held, in slot order.
    pub fn regions(&self) -> (r: Vec<RegionDesc>)
        ensures
            r@ == self@,
    {
        proof {
            lemma_run_len(self.slots(), occupied_slot());
        }
        let n = self.size();
        let mut r: Vec<RegionDesc> = Vec::new();
        let mut i: usize = 0;
        while i < n
            invariant
                i <= n,
                n == used_len(self.slots()),
                n <= self.descriptors@.len(),
                r@ == self.slots().take(i as int),
            decreases n - i,
        {
            r.push(self.descriptors[i]);
            i += 1;
            assert(r@ =~= self.slots().take(i as int));
        }
        r
    }
}

} // verus!
