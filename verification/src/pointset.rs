//! A set of grid points with a deterministic iteration order.
//!
//! The engine needs point sets (transparent cells, visible cells) whose
//! iteration order is reproducible, so the set is a vector of distinct
//! points in insertion order.

use vstd::prelude::*;
use crate::ipoint::IPoint;

verus! {

/// A finite set of points, kept as a duplicate-free vector in insertion
/// order. Its view is the abstract set of `(x, y)` coordinate pairs.
#[derive(Clone, Debug)]
pub struct PointSet {
    pub items: Vec<IPoint>,
}

/// The coordinates of a point as a pair of mathematical integers.
pub open spec fn view_pt(p: IPoint) -> (int, int) {
    (p.x as int, p.y as int)
}

impl View for PointSet {
    type V = Set<(int, int)>;

    open spec fn view(&self) -> Set<(int, int)> {
        Set::new(|q: (int, int)| exists|i: int| 0 <= i < self.items@.len() && view_pt(self.items@[i]) == q)
    }
}

impl PointSet {
    /// The points in insertion order.
    pub open spec fn seq(self) -> Seq<IPoint> {
        self.items@
    }

    /// No point occurs twice.
    pub open spec fn wf(self) -> bool {
        forall|i: int, j: int|
            0 <= i < j < self.items@.len() ==> view_pt(self.items@[i]) != view_pt(self.items@[j])
    }

    /// The empty set.
    pub fn new() -> (r: PointSet)
        ensures
            r.wf(),
            r@ == Set::<(int, int)>::empty(),
            r.seq().len() == 0,
    {
        let r = PointSet { items: Vec::new() };
        proof {
            assert(r@ =~= Set::<(int, int)>::empty());
        }
        r
    }

    /// How many points the set holds.
    pub fn len(&self) -> (r: usize)
        ensures
            r == self.seq().len(),
    {
        self.items.len()
    }

    /// The point at position `i` of the insertion order.
    pub fn get(&self, i: usize) -> (r: IPoint)
        requires
            i < self.seq().len(),
        ensures
            r == self.seq()[i as int],
            self@.contains(view_pt(r)),
    {
        self.items[i]
    }

    /// Whether the set holds `p`.
    pub fn contains(&self, p: &IPoint) -> (r: bool)
        ensures
            r == self@.contains(view_pt(*p)),
    {
        let mut i: usize = 0;
        while i < self.items.len()
            invariant
                0 <= i <= self.items@.len(),
                forall|j: int| 0 <= j < i ==> view_pt(self.items@[j]) != view_pt(*p),
            decreases self.items@.len() - i,
        {
            if self.items[i].x == p.x && self.items[i].y == p.y {
                return true;
            }
            i = i + 1;
        }
        false
    }

    /// Add `p`; a point already present is not added again.
    pub fn insert(&mut self, p: IPoint)
        requires
            old(self).wf(),
        ensures
            final(self).wf(),
            final(self)@ == old(self)@.insert(view_pt(p)),
            old(self)@.contains(view_pt(p)) ==> final(self).seq() == old(self).seq(),
            !old(self)@.contains(view_pt(p)) ==> final(self).seq() == old(self).seq().push(p),
    {
        let present = self.contains(&p);
        if !present {
            self.items.push(p);
            proof {
                assert(forall|j: int|
                    0 <= j < old(self).items@.len() ==> self.items@[j] == old(self).items@[j]);
                assert(self.items@[old(self).items@.len() as int] == p);
                assert(self@ =~= old(self)@.insert(view_pt(p)));
            }
        } else {
            proof {
                assert(old(self)@.contains(view_pt(p)));
                assert forall|q: (int, int)| old(self)@.insert(view_pt(p)).contains(q)
                    implies self@.contains(q) by {
                    if q == view_pt(p) {
                        assert(old(self)@.contains(q));
                    }
                }
                assert(self@ =~= old(self)@.insert(view_pt(p)));
            }
        }
    }
}

} // verus!
