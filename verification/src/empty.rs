//! An element that shows nothing.
use vstd::prelude::*;

verus! {

/// Fills the room it is given, unless it is collapsed.
#[derive(Clone, Copy, Debug, PartialEq, Eq, Structural)]
pub struct Empty {
    collapsed: bool,
}

/// Which end of the permitted range a length takes.
#[derive(Clone, Copy, Debug, PartialEq, Eq, Structural)]
pub enum Extent {
    Min,
    Max,
}

impl Empty {
    /// Whether the element takes as little room as it may.
    pub closed spec fn is_collapsed(self) -> bool {
        self.collapsed
    }

    /// An element that fills its room.
    pub fn new() -> (r: Empty)
        ensures
            !r.is_collapsed(),
    {
        Empty { collapsed: false }
    }

    /// The element, collapsed.
    pub fn collapsed(self) -> (r: Empty)
        ensures
            r.is_collapsed(),
    {
        Empty { collapsed: true }
    }

    /// Which length the element takes along an axis: the greatest if there is one and it is not
    /// collapsed, otherwise the least.
    pub fn extent(&self, max_is_finite: bool) -> (r: Extent)
        ensures
            r == (if max_is_finite && !self.is_collapsed() {
                Extent::Max
            } else {
                Extent::Min
            }),
    {
        if max_is_finite && !self.collapsed {
            Extent::Max
        } else {
            Extent::Min
        }
    }
}

impl Default for Empty {
    fn default() -> (r: Self)
        ensures
            !r.is_collapsed(),
    {
        Empty::new()
    }
}

} // verus!
