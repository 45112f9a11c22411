//! Row and column coordinates.

use vstd::prelude::*;

verus! {

/// Which way to go when a position falls between two valid ones.
#[derive(Clone, Copy, Debug, PartialEq, Eq, PartialOrd, Ord, Hash, Structural)]
pub enum Bias {
    Left,
    Right,
}

/// A zero-based row together with a byte column.
#[derive(Clone, Copy, Debug, Default, PartialEq, Eq, PartialOrd, Ord, Hash, Structural)]
pub struct Point {
    pub row: u32,
    pub column: u32,
}

impl Point {
    pub fn new(row: u32, column: u32) -> (point: Self)
        ensures
            point == (Point { row, column }),
    {
        Point { row, column }
    }

    /// Rows come first, columns decide within a row.
    pub open spec fn lt(self, other: Self) -> bool {
        self.row < other.row || (self.row == other.row && self.column < other.column)
    }

    pub open spec fn le(self, other: Self) -> bool {
        self.row < other.row || (self.row == other.row && self.column <= other.column)
    }

    pub fn is_before(self, other: Self) -> (before: bool)
        ensures
            before == self.lt(other),
    {
        self.row < other.row || (self.row == other.row && self.column < other.column)
    }

    /// The extent that leads from `other` to `self`.
    pub open spec fn minus(self, other: Self) -> Self {
        if self.row == other.row {
            Point { row: 0, column: (self.column - other.column) as u32 }
        } else {
            Point { row: (self.row - other.row) as u32, column: self.column }
        }
    }

    pub fn extent_from(self, other: Self) -> (extent: Self)
        requires
            other.le(self),
        ensures
            extent == self.minus(other),
    {
        if self.row == other.row {
            Point { row: 0, column: self.column - other.column }
        } else {
            Point { row: self.row - other.row, column: self.column }
        }
    }

    pub open spec fn saturating_minus(self, other: Self) -> Self {
        if self.lt(other) {
            Point { row: 0, column: 0 }
        } else {
            self.minus(other)
        }
    }

    /// Like `extent_from`, but empty where `self` comes before `other`.
    pub fn saturating_sub(self, other: Self) -> (extent: Self)
        ensures
            extent == self.saturating_minus(other),
    {
        if self.is_before(other) {
            Point { row: 0, column: 0 }
        } else {
            self.extent_from(other)
        }
    }

    /// The point reached by going `extent` further: within the row where the extent has no
    /// rows, to the extent's own column otherwise.
    pub open spec fn plus(self, extent: Self) -> Self {
        if extent.row == 0 {
            Point { row: self.row, column: (self.column + extent.column) as u32 }
        } else {
            Point { row: (self.row + extent.row) as u32, column: extent.column }
        }
    }

    pub fn advanced_by(self, extent: Self) -> (point: Self)
        requires
            extent.row == 0 ==> self.column + extent.column <= u32::MAX,
            self.row + extent.row <= u32::MAX,
        ensures
            point == self.plus(extent),
    {
        if extent.row == 0 {
            Point { row: self.row, column: self.column + extent.column }
        } else {
            Point { row: self.row + extent.row, column: extent.column }
        }
    }
}

/// A position in soft-wrapped text.
#[derive(Clone, Copy, Debug, Default, PartialEq, Eq, PartialOrd, Ord, Hash, Structural)]
pub struct WrapPoint(pub Point);

impl WrapPoint {
    pub fn new(row: u32, column: u32) -> (point: Self)
        ensures
            point == WrapPoint(Point { row, column }),
    {
        WrapPoint(Point { row, column })
    }

    pub fn row(self) -> (row: u32)
        ensures
            row == self.0.row,
    {
        self.0.row
    }
}

/// A position in soft-wrapped text interleaved with blocks.
#[derive(Clone, Copy, Debug, Default, PartialEq, Eq, PartialOrd, Ord, Hash, Structural)]
pub struct BlockPoint(pub Point);

impl BlockPoint {
    pub fn new(row: u32, column: u32) -> (point: Self)
        ensures
            point == BlockPoint(Point { row, column }),
    {
        BlockPoint(Point { row, column })
    }
}

impl std::ops::Deref for BlockPoint {
    type Target = Point;

    fn deref(&self) -> (point: &Point)
        ensures
            *point == self.0,
    {
        &self.0
    }
}

/// A row of soft-wrapped text interleaved with blocks.
#[derive(Clone, Copy, Debug, Default, PartialEq, Eq, PartialOrd, Ord, Hash, Structural)]
pub struct BlockRow(pub u32);

} // verus!
