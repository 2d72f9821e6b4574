//! Closed intervals on the spawn line and the two clipping operations.

use vstd::prelude::*;

verus! {

/// The closed interval `[lower, upper]` on the spawn line.
#[derive(Copy, Clone, PartialEq, Eq, Debug, Structural)]
pub struct Region {
    pub lower: i64,
    pub upper: i64,
}

impl Region {
    /// The region from `lower` to `upper`.
    pub open spec fn spanning(lower: i64, upper: i64) -> Region {
        Region { lower, upper }
    }

    /// A region is valid when it has positive width.
    pub open spec fn valid(self) -> bool {
        self.lower < self.upper
    }

    /// The width of the region.
    pub open spec fn width(self) -> int {
        self.upper - self.lower
    }

    /// Whether the unit segment `[cell, cell + 1]` lies inside the region.
    pub open spec fn holds(self, cell: int) -> bool {
        self.lower <= cell && cell + 1 <= self.upper
    }

    /// Whether `point` lies in the region, at a bound or between them.
    pub open spec fn has_point(self, point: int) -> bool {
        self.lower <= point <= self.upper
    }

    /// The part of the region at or above `point`, if it has positive width.
    pub open spec fn above(self, point: i64) -> Option<Region> {
        let inner = if point > self.lower { point } else { self.lower };
        if inner < self.upper {
            Some(Region { lower: inner, upper: self.upper })
        } else {
            None
        }
    }

    /// The part of the region at or below `point`, if it has positive width.
    pub open spec fn below(self, point: i64) -> Option<Region> {
        let inner = if point < self.upper { point } else { self.upper };
        if inner > self.lower {
            Some(Region { lower: self.lower, upper: inner })
        } else {
            None
        }
    }

    /// Intersects the region with `[point, +inf)`. A result of zero width is
    /// reported as absent.
    pub fn exclude_below_point(&self, point: i64) -> (kept: Option<Region>)
        ensures
            kept == self.above(point),
            kept matches Some(r) ==> r.valid() && r.upper == self.upper && r.lower >= self.lower
                && r.lower >= point,
            self.valid() && point <= self.lower ==> kept == Some(*self),
            point >= self.upper ==> kept is None,
    {
        let inner_boundary = if point > self.lower { point } else { self.lower };
        if inner_boundary < self.upper {
            Some(Region { lower: inner_boundary, upper: self.upper })
        } else {
            None
        }
    }

    /// Intersects the region with `(-inf, point]`. A result of zero width is
    /// reported as absent.
    pub fn exclude_above_point(&self, point: i64) -> (kept: Option<Region>)
        ensures
            kept == self.below(point),
            kept matches Some(r) ==> r.valid() && r.lower == self.lower && r.upper <= self.upper
                && r.upper <= point,
            self.valid() && point >= self.upper ==> kept == Some(*self),
            point <= self.lower ==> kept is None,
    {
        let inner_boundary = if point < self.upper { point } else { self.upper };
        if inner_boundary > self.lower {
            Some(Region { lower: self.lower, upper: inner_boundary })
        } else {
            None
        }
    }
}

} // verus!
