//! Actions and the transient per-invocation effects bundle.

use vstd::prelude::*;
use crate::ipoint::IPoint;
use crate::object::Idx;

verus! {

/// One action of an entity, immutable once constructed. Each variant names
/// the entity id(s) it acts on.
#[derive(Clone, Copy, Debug, PartialEq, Eq, Structural)]
pub enum Action {
    /// `source` strikes `target`.
    Attack { source: Idx, target: Idx },
    /// `idx` steps onto `position`.
    Walk { idx: Idx, position: IPoint },
    /// `idx` passes its turn.
    Wait { idx: Idx },
}

impl Action {
    /// The ids of the entities this action acts on.
    pub fn actors(&self) -> (r: Vec<Idx>)
        ensures
            match *self {
                Action::Attack { source, target } => r@ == seq![source, target],
                Action::Walk { idx, .. } => r@ == seq![idx],
                Action::Wait { idx } => r@ == seq![idx],
            },
    {
        match self {
            Action::Attack { source, target } => {
                let mut v = Vec::new();
                v.push(*source);
                v.push(*target);
                proof {
                    assert(v@ =~= seq![*source, *target]);
                }
                v
            },
            Action::Walk { idx, .. } => {
                let mut v = Vec::new();
                v.push(*idx);
                proof {
                    assert(v@ =~= seq![*idx]);
                }
                v
            },
            Action::Wait { idx } => {
                let mut v = Vec::new();
                v.push(*idx);
                proof {
                    assert(v@ =~= seq![*idx]);
                }
                v
            },
        }
    }
}

/// The transient bundle of one action invocation: a deterministically
/// reseeded random stream, the pending actions (drained last-in first-out),
/// and the messages emitted so far. Never kept past one invocation.
pub struct Effects {
    pub rand: rand::XorShiftRng,
    pub messages: Vec<String>,
    pub actions: Vec<Action>,
}

} // verus!
