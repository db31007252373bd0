//! Solid, sight-blocking terrain.

use vstd::prelude::*;
use crate::object::Idx;

verus! {

/// A wall cell: part of the environment, blocking movement and sight.
#[derive(Clone, Copy, Debug, PartialEq, Eq, Structural)]
pub struct Wall {
    pub idx: Idx,
}

impl Wall {
    /// A wall behavior for the entity with the given id.
    pub fn new(idx: Idx) -> (r: Wall)
        ensures
            r.idx == idx,
    {
        Wall { idx }
    }
}

} // verus!
