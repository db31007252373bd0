//! Integer 2D points: the coordinate type of the whole engine.

use vstd::prelude::*;
use crate::irange::IRange;

verus! {

/// A point on the integer grid.
#[derive(Clone, Copy, Debug, PartialEq, Eq, Structural)]
pub struct IPoint {
    pub x: i32,
    pub y: i32,
}

/// Coordinates of every point the engine works with stay inside this bound,
/// so that the scaled ray arithmetic of the visibility oracle fits in `i64`.
pub const COORD_LIMIT: i32 = 1048576;

impl IPoint {
    /// All coordinates small enough for the engine's integer arithmetic.
    pub open spec fn bounded(self) -> bool {
        -COORD_LIMIT <= self.x <= COORD_LIMIT && -COORD_LIMIT <= self.y <= COORD_LIMIT
    }

    /// The origin, `(0, 0)`.
    pub fn zero() -> (r: IPoint)
        ensures
            r == (IPoint { x: 0, y: 0 }),
    {
        IPoint { x: 0, y: 0 }
    }

    /// Componentwise minimum.
    pub fn bottom(&self, other: &IPoint) -> (r: IPoint)
        ensures
            r.x == if self.x <= other.x { self.x } else { other.x },
            r.y == if self.y <= other.y { self.y } else { other.y },
    {
        IPoint {
            x: if self.x <= other.x { self.x } else { other.x },
            y: if self.y <= other.y { self.y } else { other.y },
        }
    }

    /// Componentwise maximum.
    pub fn top(&self, other: &IPoint) -> (r: IPoint)
        ensures
            r.x == if self.x >= other.x { self.x } else { other.x },
            r.y == if self.y >= other.y { self.y } else { other.y },
    {
        IPoint {
            x: if self.x >= other.x { self.x } else { other.x },
            y: if self.y >= other.y { self.y } else { other.y },
        }
    }

    /// Componentwise sum.
    pub fn plus(self, other: IPoint) -> (r: IPoint)
        requires
            i32::MIN <= self.x + other.x <= i32::MAX,
            i32::MIN <= self.y + other.y <= i32::MAX,
        ensures
            r.x == self.x + other.x,
            r.y == self.y + other.y,
    {
        IPoint { x: self.x + other.x, y: self.y + other.y }
    }

    /// Componentwise difference.
    pub fn minus(self, other: IPoint) -> (r: IPoint)
        requires
            i32::MIN <= self.x - other.x <= i32::MAX,
            i32::MIN <= self.y - other.y <= i32::MAX,
        ensures
            r.x == self.x - other.x,
            r.y == self.y - other.y,
    {
        IPoint { x: self.x - other.x, y: self.y - other.y }
    }

    /// Manhattan distance between two points, as a mathematical integer.
    pub open spec fn spec_rdist(self, to: IPoint) -> int {
        abs_int(self.x - to.x) + abs_int(self.y - to.y)
    }

    /// Manhattan (rectilinear) distance.
    pub fn rdist(&self, to: &IPoint) -> (r: i64)
        ensures
            r == self.spec_rdist(*to),
    {
        let dx: i64 = self.x as i64 - to.x as i64;
        let dy: i64 = self.y as i64 - to.y as i64;
        let ax: i64 = if dx < 0 { -dx } else { dx };
        let ay: i64 = if dy < 0 { -dy } else { dy };
        ax + ay
    }

    /// Squared Euclidean distance, as a mathematical integer.
    pub open spec fn spec_dist2(self, to: IPoint) -> int {
        (self.x - to.x) * (self.x - to.x) + (self.y - to.y) * (self.y - to.y)
    }

    /// Squared Euclidean distance. Comparing squared distances orders points
    /// exactly as the real Euclidean distance does, with no rounding.
    pub fn dist2(&self, to: &IPoint) -> (r: i64)
        requires
            self.bounded(),
            to.bounded(),
        ensures
            r == self.spec_dist2(*to),
    {
        let dx: i64 = self.x as i64 - to.x as i64;
        let dy: i64 = self.y as i64 - to.y as i64;
        proof {
            assert(0 <= dx * dx + dy * dy <= i64::MAX && dx * dx <= i64::MAX && dy * dy
                <= i64::MAX) by (nonlinear_arith)
                requires
                    -2097152 <= dx <= 2097152,
                    -2097152 <= dy <= 2097152,
            ;
        }
        dx * dx + dy * dy
    }

    /// The axis-aligned box `[self, to)`.
    pub fn range(self, to: IPoint) -> (r: IRange)
        ensures
            r.start == self && r.end == to,
    {
        IRange { start: self, end: to }
    }

    /// The box from the origin to `self` (exclusive).
    pub fn zrange(self) -> (r: IRange)
        ensures
            r.start == (IPoint { x: 0, y: 0 }) && r.end == self,
    {
        IRange { start: IPoint { x: 0, y: 0 }, end: self }
    }

    /// The square box of cells within `radius` of `self` on both axes
    /// (the end is exclusive, so the box spans `2 * radius + 1` cells).
    pub fn square_around(self, radius: i32) -> (r: IRange)
        requires
            0 <= radius,
            self.x - radius >= i32::MIN,
            self.y - radius >= i32::MIN,
            self.x + radius + 1 <= i32::MAX,
            self.y + radius + 1 <= i32::MAX,
        ensures
            r.start.x == self.x - radius,
            r.start.y == self.y - radius,
            r.end.x == self.x + radius + 1,
            r.end.y == self.y + radius + 1,
    {
        IRange {
            start: IPoint { x: self.x - radius, y: self.y - radius },
            end: IPoint { x: self.x + radius + 1, y: self.y + radius + 1 },
        }
    }
}

/// Absolute value of a mathematical integer.
pub open spec fn abs_int(v: int) -> int {
    if v < 0 {
        -v
    } else {
        v
    }
}

} // verus!
