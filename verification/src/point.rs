//! Positions in text: a row and, within it, a column counted in bytes.
use vstd::prelude::*;

verus! {

/// A position in text.
#[derive(Clone, Copy, Debug, Default, PartialEq, Eq, PartialOrd, Ord, Hash, Structural)]
pub struct Point {
    pub row: u32,
    pub column: u32,
}

/// Which side a position belongs to where it could be on either.
#[derive(Clone, Copy, Debug, PartialEq, Eq, Structural)]
pub enum Bias {
    Left,
    Right,
}

impl Point {
    /// The position in row `row` and column `column`.
    pub fn new(row: u32, column: u32) -> (r: Point)
        ensures
            r == (Point { row, column }),
    {
        Point { row, column }
    }

    /// The beginning of the text.
    pub fn zero() -> (r: Point)
        ensures
            r == (Point { row: 0, column: 0 }),
    {
        Point { row: 0, column: 0 }
    }

    /// Whether the position is the beginning of the text.
    pub fn is_zero(&self) -> (r: bool)
        ensures
            r == (self.row == 0 && self.column == 0),
    {
        self.row == 0 && self.column == 0
    }

    /// Whether this position is before another.
    pub open spec fn precedes(self, other: Point) -> bool {
        self.row < other.row || (self.row == other.row && self.column < other.column)
    }

    /// Whether this position is before another or the same.
    pub open spec fn at_most(self, other: Point) -> bool {
        self == other || self.precedes(other)
    }

    /// Tells whether this position is before another.
    pub fn before(&self, other: &Point) -> (r: bool)
        ensures
            r == self.precedes(*other),
    {
        self.row < other.row || (self.row == other.row && self.column < other.column)
    }
}

/// Points go by their rows, and in one row by their columns.
pub proof fn rows_come_before_columns(a: Point, b: Point)
    ensures
        a.row < b.row ==> a.precedes(b) && !b.precedes(a),
        a.row == b.row ==> (a.precedes(b) <==> a.column < b.column),
        a.at_most(b) <==> !b.precedes(a),
{
}

} // verus!
