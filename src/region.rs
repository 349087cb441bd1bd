//! One slot of the region table: a half-open address range, or an empty slot.
use vstd::prelude::*;

verus! {

/// A descriptor `[base, base + size)`; a size of zero marks an unused slot.
#[derive(Clone, Copy, Debug, PartialEq, Eq, Structural)]
pub struct RegionDesc {
    pub base: usize,
    pub size: usize,
}

impl RegionDesc {
    /// Whether the descriptor holds a region (as opposed to an unused slot).
    pub open spec fn occupied(self) -> bool {
        self.size > 0
    }

    /// The exclusive upper bound `base + size`.
    pub open spec fn end_excl(self) -> int {
        self.base + self.size
    }

    /// Whether address `a` lies in the range.
    pub open spec fn holds(self, a: int) -> bool {
        self.base <= a < self.end_excl()
    }

    /// The unused-slot sentinel.
    pub open spec fn spec_missing() -> RegionDesc {
        RegionDesc { base: 0, size: 0 }
    }

    /// An unused slot.
    pub fn missing() -> (r: Self)
        ensures
            r == Self::spec_missing(),
    {
        RegionDesc { base: 0, size: 0 }
    }

    /// Whether the slot is unused.
    pub fn is_empty(&self) -> (r: bool)
        ensures
            r == !self.occupied(),
    {
        self.size == 0
    }

    /// The inclusive last address of the range, or 0 for an unused slot.
    pub fn end(&self) -> (r: usize)
        requires
            self.end_excl() <= usize::MAX + 1,
        ensures
            self.size == 0 ==> r == 0,
            self.size > 0 ==> r == self.end_excl() - 1,
    {
        if self.size == 0 {
            0
        } else {
            self.base + (self.size - 1)
        }
    }

    /// The range as a `Range<usize>`.
    pub fn range(&self) -> (r: core::ops::Range<usize>)
        requires
            self.end_excl() <= usize::MAX,
        ensures
            r.start == self.base,
            r.end == self.end_excl(),
    {
        self.base..self.base + self.size
    }
}

} // verus!
