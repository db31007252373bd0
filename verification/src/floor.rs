//! Walkable, see-through terrain.

use vstd::prelude::*;
use crate::object::Idx;

verus! {

/// A floor cell: part of the environment, neither blocking nor opaque.
#[derive(Clone, Copy, Debug, PartialEq, Eq, Structural)]
pub struct Floor {
    pub idx: Idx,
}

impl Floor {
    /// A floor behavior for the entity with the given id.
    pub fn new(idx: Idx) -> (r: Floor)
        ensures
            r.idx == idx,
    {
        Floor { idx }
    }
}

} // verus!
