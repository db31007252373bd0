//! Error conditions of the engine.

use vstd::prelude::*;

verus! {

/// A recoverable failure of the engine.
#[derive(Clone, Copy, Debug, PartialEq, Eq, Structural)]
pub enum EngineError {
    /// An entity with this id is already stored.
    DuplicateEntity(u32),
    /// An action named an entity id that no level holds: the invariant that
    /// actions only name existing entities was broken, and the turn is
    /// aborted.
    MissingEntity(u32),
    /// The scheduler found no entity ready to act.
    NoReadyEntity,
    /// A freshly built board has no free cell to spawn the player on.
    NoSpawnCell,
}

} // verus!
