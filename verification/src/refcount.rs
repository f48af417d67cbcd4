//! The per-reader packed counter word.
//!
//! One 64-bit word per registered reader holds, packed together, the side the
//! reader will pin next (top bit) and the number of its guards that are
//! currently alive (low bits). Packing the two into one word is what lets the
//! concurrent protocol observe a consistent pair; here the packing itself and
//! the arithmetic on it are verified.

use vstd::prelude::*;

use crate::map_index::MapIndex;

verus! {

/// Top bit of the word: which side the reader pins next.
pub const MAP_INDEX_FLAG: u64 = 0x8000_0000_0000_0000;

/// Sentinel bit just below the side bit; it is set only if the guard count
/// ever overflows its field, which the contracts below rule out.
pub const OVERFLOW_FLAG: u64 = 0x4000_0000_0000_0000;

/// Low bits of the word: the count of live guards.
pub const COUNT_MASK: u64 = 0x3FFF_FFFF_FFFF_FFFF;

/// The packed (side bit, guard count) word of one reader.
#[derive(Clone, Copy)]
pub struct RefCount {
    value: u64,
}

/// What a reader learns when it drops a guard: whether the sides were swapped
/// while the guard was alive.
#[derive(Clone, Copy, PartialEq, Eq, Structural, Debug)]
pub enum ReaderStatus {
    /// The guard's side is still the side the reader pins: nothing to do.
    Normal,
    /// A publish moved the reader to the other buffer while the guard was
    /// alive, so the guard was pinning the writer's side.
    Residual,
}

impl RefCount {
    /// The guard count stored in the low bits.
    pub closed spec fn spec_count(self) -> u64 {
        self.value & COUNT_MASK
    }

    /// The side stored in the top bit.
    pub closed spec fn spec_side(self) -> MapIndex {
        if self.value & MAP_INDEX_FLAG == 0 {
            MapIndex::First
        } else {
            MapIndex::Second
        }
    }

    /// The overflow sentinel stays clear as long as the count stays below its
    /// field's capacity.
    pub closed spec fn wf(self) -> bool {
        self.value & OVERFLOW_FLAG == 0
    }

    /// A fresh word: count zero, side bit as given.
    pub fn new(read_index: MapIndex) -> (r: Self)
        ensures
            r.wf(),
            r.spec_count() == 0,
            r.spec_side() == read_index,
    {
        let value: u64 = match read_index {
            MapIndex::First => 0,
            MapIndex::Second => MAP_INDEX_FLAG,
        };
        proof {
            assert((0u64 & COUNT_MASK) == 0 && (0u64 & MAP_INDEX_FLAG) == 0 && (0u64
                & OVERFLOW_FLAG) == 0) by (bit_vector);
            assert((MAP_INDEX_FLAG & COUNT_MASK) == 0 && (MAP_INDEX_FLAG & MAP_INDEX_FLAG) != 0 && (
            MAP_INDEX_FLAG & OVERFLOW_FLAG) == 0) by (bit_vector);
        }
        RefCount { value }
    }

    /// A reader enters a guard: the count grows by one and the side observed
    /// together with it is returned.
    pub fn increment(&mut self) -> (side: MapIndex)
        requires
            old(self).wf(),
            old(self).spec_count() < COUNT_MASK,
        ensures
            final(self).wf(),
            final(self).spec_count() == old(self).spec_count() + 1,
            final(self).spec_side() == old(self).spec_side(),
            side == old(self).spec_side(),
    {
        let v = self.value;
        proof {
            assert(v & OVERFLOW_FLAG == 0 && (v & COUNT_MASK) < COUNT_MASK ==> v < 0xFFFF_FFFF_FFFF_FFFFu64
                && ((v + 1) as u64 & COUNT_MASK) == (v & COUNT_MASK) + 1 && ((v + 1) as u64
                & MAP_INDEX_FLAG) == (v & MAP_INDEX_FLAG) && ((v + 1) as u64 & OVERFLOW_FLAG)
                == 0) by (bit_vector);
        }
        let side = if self.value & MAP_INDEX_FLAG == 0 {
            MapIndex::First
        } else {
            MapIndex::Second
        };
        self.value = self.value + 1;
        side
    }

    /// A reader leaves a guard: the count shrinks by one and the side observed
    /// together with it is returned.
    pub fn decrement(&mut self) -> (side: MapIndex)
        requires
            old(self).wf(),
            old(self).spec_count() > 0,
        ensures
            final(self).wf(),
            final(self).spec_count() == old(self).spec_count() - 1,
            final(self).spec_side() == old(self).spec_side(),
            side == old(self).spec_side(),
    {
        let v = self.value;
        proof {
            assert(v & OVERFLOW_FLAG == 0 && (v & COUNT_MASK) > 0 ==> v >= 1 && ((v - 1) as u64
                & COUNT_MASK) == (v & COUNT_MASK) - 1 && ((v - 1) as u64 & MAP_INDEX_FLAG) == (v
                & MAP_INDEX_FLAG) && ((v - 1) as u64 & OVERFLOW_FLAG) == 0) by (bit_vector);
        }
        let side = if self.value & MAP_INDEX_FLAG == 0 {
            MapIndex::First
        } else {
            MapIndex::Second
        };
        self.value = self.value - 1;
        side
    }

    /// The writer, during a publish, flips the reader's side bit and learns the
    /// count that was packed beside it. Because the overflow sentinel is clear,
    /// toggling the top bit never disturbs the count.
    pub fn swap_maps(&mut self) -> (count: u64)
        requires
            old(self).wf(),
        ensures
            final(self).wf(),
            count == old(self).spec_count(),
            final(self).spec_count() == old(self).spec_count(),
            final(self).spec_side() == old(self).spec_side().spec_other(),
    {
        let v = self.value;
        let count = self.value & COUNT_MASK;
        if self.value & MAP_INDEX_FLAG == 0 {
            proof {
                assert(v & MAP_INDEX_FLAG == 0 ==> v <= 0x7FFF_FFFF_FFFF_FFFFu64 && ((v
                    + MAP_INDEX_FLAG) as u64 & COUNT_MASK) == (v & COUNT_MASK) && ((v
                    + MAP_INDEX_FLAG) as u64 & MAP_INDEX_FLAG) != 0 && ((v + MAP_INDEX_FLAG) as u64
                    & OVERFLOW_FLAG) == (v & OVERFLOW_FLAG)) by (bit_vector);
            }
            self.value = self.value + MAP_INDEX_FLAG;
        } else {
            proof {
                assert(v & MAP_INDEX_FLAG != 0 ==> v >= MAP_INDEX_FLAG && ((v
                    - MAP_INDEX_FLAG) as u64 & COUNT_MASK) == (v & COUNT_MASK) && ((v
                    - MAP_INDEX_FLAG) as u64 & MAP_INDEX_FLAG) == 0 && ((v
                    - MAP_INDEX_FLAG) as u64 & OVERFLOW_FLAG) == (v & OVERFLOW_FLAG)) by (
                bit_vector);
            }
            self.value = self.value - MAP_INDEX_FLAG;
        }
        count
    }
}

} // verus!
