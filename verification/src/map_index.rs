//! The index of one of the two buffers.
//!
//! The writer mutates one buffer while readers observe the other; a publish
//! swaps the two roles. `MapIndex` names the two sides.

use vstd::prelude::*;

verus! {

/// Which of the two buffers a party is looking at.
#[derive(Clone, Copy, PartialEq, Eq, Structural, Debug)]
pub enum MapIndex {
    First,
    Second,
}

impl MapIndex {
    /// The opposite side.
    pub fn other(self) -> (r: Self)
        ensures
            r == self.spec_other(),
    {
        match self {
            MapIndex::First => MapIndex::Second,
            MapIndex::Second => MapIndex::First,
        }
    }

    /// The opposite side, as a spec-level function.
    pub open spec fn spec_other(self) -> Self {
        match self {
            MapIndex::First => MapIndex::Second,
            MapIndex::Second => MapIndex::First,
        }
    }
}

} // verus!
