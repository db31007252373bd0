//! Axis-aligned boxes of integer points, used for bounds clipping and
//! candidate enumeration.

use vstd::prelude::*;
use crate::ipoint::IPoint;

verus! {

/// The half-open box of points `p` with `start.x <= p.x < end.x` and
/// `start.y <= p.y < end.y`.
#[derive(Clone, Copy, Debug, PartialEq, Eq, Structural)]
pub struct IRange {
    pub start: IPoint,
    pub end: IPoint,
}

impl IRange {
    /// Whether `point` lies inside the box, as a spec-level predicate.
    pub open spec fn spec_inside(self, point: IPoint) -> bool {
        self.start.x <= point.x < self.end.x && self.start.y <= point.y < self.end.y
    }

    /// The size of the box (componentwise `end - start`).
    pub fn size(self) -> (r: IPoint)
        requires
            i32::MIN <= self.end.x - self.start.x <= i32::MAX,
            i32::MIN <= self.end.y - self.start.y <= i32::MAX,
        ensures
            r.x == self.end.x - self.start.x,
            r.y == self.end.y - self.start.y,
    {
        self.end.minus(self.start)
    }

    /// Clamp `point` into the box (up to `end`, inclusive).
    pub fn clip(self, point: IPoint) -> (r: IPoint)
        ensures
            ({
                let mx = if point.x >= self.start.x { point.x } else { self.start.x };
                let my = if point.y >= self.start.y { point.y } else { self.start.y };
                r.x == if mx <= self.end.x { mx } else { self.end.x }
                    && r.y == if my <= self.end.y { my } else { self.end.y }
            }),
    {
        point.top(&self.start).bottom(&self.end)
    }

    /// Separation between two boxes: positive when they are apart, negative
    /// when they overlap on both axes.
    pub fn rdist(self, other: IRange) -> (r: i32)
        requires
            self.start.bounded(),
            self.end.bounded(),
            other.start.bounded(),
            other.end.bounded(),
        ensures
            ({
                let dx = (if self.end.x <= other.end.x { self.end.x } else { other.end.x })
                    - (if self.start.x >= other.start.x { self.start.x } else { other.start.x });
                let dy = (if self.end.y <= other.end.y { self.end.y } else { other.end.y })
                    - (if self.start.y >= other.start.y { self.start.y } else { other.start.y });
                r == -(if dx <= dy { dx } else { dy })
            }),
    {
        let max = self.end.bottom(&other.end);
        let min = self.start.top(&other.start);
        let diff = max.minus(min);
        let m: i32 = if diff.x <= diff.y { diff.x } else { diff.y };
        -m
    }

    /// Whether `point` lies inside the box.
    pub fn inside(self, point: IPoint) -> (r: bool)
        ensures
            r == self.spec_inside(point),
    {
        point.x < self.end.x && point.y < self.end.y && point.x >= self.start.x && point.y
            >= self.start.y
    }

    /// An iterator over the points of the box, row by row.
    pub fn iter(self) -> (r: IITer)
        ensures
            r.range == self,
            r.x == self.start.x,
            r.y == self.start.y,
    {
        IITer::new(self)
    }

    /// The intersection of two boxes.
    pub fn intersect(self, other: IRange) -> (r: IRange)
        ensures
            r.start.x == if self.start.x >= other.start.x { self.start.x } else { other.start.x },
            r.start.y == if self.start.y >= other.start.y { self.start.y } else { other.start.y },
            r.end.x == if self.end.x <= other.end.x { self.end.x } else { other.end.x },
            r.end.y == if self.end.y <= other.end.y { self.end.y } else { other.end.y },
            forall|p: IPoint| r.spec_inside(p) == (self.spec_inside(p) && other.spec_inside(p)),
    {
        IRange { start: self.start.top(&other.start), end: self.end.bottom(&other.end) }
    }
}

/// A cursor over the points of an `IRange`, row by row, left to right.
pub struct IITer {
    pub range: IRange,
    pub x: i32,
    pub y: i32,
}

impl IITer {
    /// Start a cursor at the first point of the box.
    pub fn new(range: IRange) -> (r: IITer)
        ensures
            r.range == range,
            r.x == range.start.x,
            r.y == range.start.y,
    {
        IITer { range, x: range.start.x, y: range.start.y }
    }

    /// The next point of the box, or `None` once every row is exhausted.
    pub fn next(&mut self) -> (r: Option<IPoint>)
        requires
            old(self).range.start.bounded(),
            old(self).range.end.bounded(),
            old(self).range.start.x <= old(self).x <= old(self).range.end.x,
            old(self).range.start.y <= old(self).y,
        ensures
            final(self).range == old(self).range,
            old(self).y >= old(self).range.end.y ==> r is None && *final(self) == *old(self),
            old(self).y < old(self).range.end.y ==> {
                &&& r == Some(IPoint { x: old(self).x, y: old(self).y })
                &&& (old(self).x + 1 < old(self).range.end.x ==> final(self).x == old(self).x + 1
                    && final(self).y == old(self).y)
                &&& (old(self).x + 1 >= old(self).range.end.x ==> final(self).x
                    == old(self).range.start.x && final(self).y == old(self).y + 1)
            },
            final(self).range.start.x <= final(self).x <= final(self).range.end.x,
            final(self).range.start.y <= final(self).y,
    {
        if self.y >= self.range.end.y {
            return None;
        }
        let result = IPoint { x: self.x, y: self.y };
        self.x = self.x + 1;
        if self.x >= self.range.end.x {
            self.x = self.range.start.x;
            self.y = self.y + 1;
        }
        Some(result)
    }
}

} // verus!
