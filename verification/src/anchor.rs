//! Places in a text that stay with their surroundings.
use vstd::prelude::*;
use crate::point::Bias;

verus! {

/// A place in a text: between two characters, bound to the one on its left or on its right.
#[derive(Clone, Copy, Debug, PartialEq, Eq, Structural)]
pub struct Anchor {
    pub offset: usize,
    pub bias: Bias,
}

/// The text between two places.
#[derive(Clone, Copy, Debug, PartialEq, Eq, Structural)]
pub struct AnchorRange {
    pub start: Anchor,
    pub end: Anchor,
}

impl Anchor {
    /// The place at an offset, bound to what is on its left.
    pub fn before(offset: usize) -> (r: Anchor)
        ensures
            r == (Anchor { offset, bias: Bias::Left }),
    {
        Anchor { offset, bias: Bias::Left }
    }

    /// The place at an offset, bound to what is on its right.
    pub fn after(offset: usize) -> (r: Anchor)
        ensures
            r == (Anchor { offset, bias: Bias::Right }),
    {
        Anchor { offset, bias: Bias::Right }
    }

    /// Whether this place is in front of another one or the same. At one offset, the place bound
    /// to the left comes first.
    pub open spec fn at_most(self, other: Anchor) -> bool {
        self.offset < other.offset || (self.offset == other.offset && (self.bias == other.bias
            || self.bias == Bias::Left))
    }

    /// Tells whether this place is in front of another one or the same.
    pub fn is_at_most(&self, other: &Anchor) -> (r: bool)
        ensures
            r == self.at_most(*other),
    {
        self.offset < other.offset || (self.offset == other.offset && (self.bias == other.bias
            || self.bias == Bias::Left))
    }
}

impl AnchorRange {
    /// Whether a place is in the range; both ends belong to it.
    pub open spec fn holds(self, place: Anchor) -> bool {
        self.start.at_most(place) && place.at_most(self.end)
    }

    /// Whether an offset is in the range; its end does not belong to it.
    pub open spec fn covers(self, offset: usize) -> bool {
        self.start.offset <= offset < self.end.offset
    }
}

/// Places are ordered: of two different ones exactly one is in front.
pub proof fn anchors_are_ordered(a: Anchor, b: Anchor, c: Anchor)
    ensures
        a.at_most(b) || b.at_most(a),
        a.at_most(b) && b.at_most(a) ==> a == b,
        a.at_most(b) && b.at_most(c) ==> a.at_most(c),
{
}

/// Anchors go by their offsets, and at one offset the one that leans left comes first.
pub proof fn offsets_come_first(a: Anchor, b: Anchor)
    ensures
        a.offset < b.offset ==> a.at_most(b) && !b.at_most(a),
        a.offset == b.offset && a.bias is Left && b.bias is Right ==> a.at_most(b) && !b.at_most(a),
{
}

/// A range holds its ends and what lies between them, and nothing outside.
pub proof fn range_holds_what_is_between(range: AnchorRange, place: Anchor)
    requires
        range.start.at_most(range.end),
    ensures
        range.holds(range.start),
        range.holds(range.end),
        range.start.offset < place.offset < range.end.offset ==> range.holds(place),
        place.offset < range.start.offset || place.offset > range.end.offset ==> !range.holds(place),
{
}

/// A range covers the offset it starts at, not the one it ends at.
pub proof fn range_covers_up_to_its_end(range: AnchorRange, offset: usize)
    requires
        range.start.offset < range.end.offset,
    ensures
        range.covers(range.start.offset),
        !range.covers(range.end.offset),
        range.covers((range.end.offset - 1) as usize),
        range.covers(offset) ==> range.holds(Anchor { offset, bias: range.start.bias }),
{
}

} // verus!
