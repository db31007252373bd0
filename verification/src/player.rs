//! The player-controlled actor: it always plans whatever action was last
//! set from outside.

use vstd::prelude::*;
use crate::context::Action;
use crate::object::Idx;

verus! {

/// The behavior of the player's entity.
#[derive(Clone, Copy, Debug)]
pub struct Player {
    /// The id of the entity this behavior belongs to.
    pub idx: Idx,
    /// Perception range, in tenths of a cell.
    pub range_tenths: u32,
    /// Cost charged onto wait time by a `Wait`.
    pub wait_speed: i64,
    /// Cost charged onto cooldown by a `Walk`.
    pub walk_speed: i64,
    /// Cost charged onto cooldown by an `Attack`.
    pub attack_speed: i64,
    /// Remaining health.
    pub health: i32,
    /// Ticks before the next action.
    pub cooldown: i64,
    /// Accumulated waiting, scheduled like cooldown.
    pub wait_time: i64,
    /// The externally supplied action the player will take next.
    pub action: Action,
}

impl Player {
    /// Counters are never negative, stats stay within machine bounds, and
    /// the stored action acts through this player itself.
    pub open spec fn wf(self) -> bool {
        &&& 0 <= self.health
        &&& 0 <= self.cooldown
        &&& 0 <= self.wait_time
        &&& 0 <= self.wait_speed <= 0x1_0000_0000
        &&& 0 <= self.walk_speed <= 0x1_0000_0000
        &&& 0 <= self.attack_speed <= 0x1_0000_0000
        &&& self.range_tenths <= 100000
        &&& match self.action {
            Action::Attack { source, .. } => source == self.idx,
            Action::Walk { idx, .. } => idx == self.idx,
            Action::Wait { idx } => idx == self.idx,
        }
    }

    /// A player behavior with the engine's standard stats, initially
    /// waiting.
    pub fn new(idx: Idx) -> (r: Player)
        ensures
            r.idx == idx,
            r.range_tenths == 100,
            r.wait_speed == 10 && r.walk_speed == 10 && r.attack_speed == 10,
            r.health == 10,
            r.cooldown == 0 && r.wait_time == 0,
            r.action == (Action::Wait { idx }),
            r.wf(),
    {
        Player {
            idx,
            range_tenths: 100,
            wait_speed: 10,
            walk_speed: 10,
            attack_speed: 10,
            health: 10,
            cooldown: 0,
            wait_time: 0,
            action: Action::Wait { idx },
        }
    }

    /// Set the action the player will plan on its next turn. The action
    /// must act through this player itself.
    pub fn set_action(&mut self, action: Action)
        requires
            match action {
                Action::Attack { source, .. } => source == old(self).idx,
                Action::Walk { idx, .. } => idx == old(self).idx,
                Action::Wait { idx } => idx == old(self).idx,
            },
        ensures
            *final(self) == (Player { action, ..*old(self) }),
    {
        self.action = action;
    }

    /// The player after an executed action touches it.
    pub open spec fn spec_execute(self, action: Action) -> Player {
        match action {
            Action::Attack { source, target } => {
                let charged = if source == self.idx {
                    Player { cooldown: (self.cooldown + self.attack_speed) as i64, ..self }
                } else {
                    self
                };
                if target == self.idx {
                    Player {
                        health: if charged.health - 1 >= 0 {
                            (charged.health - 1) as i32
                        } else {
                            0
                        },
                        ..charged
                    }
                } else {
                    charged
                }
            },
            Action::Walk { .. } => Player {
                cooldown: (self.cooldown + self.walk_speed) as i64,
                ..self
            },
            Action::Wait { .. } => Player {
                wait_time: (self.wait_time + self.wait_speed) as i64,
                ..self
            },
        }
    }

    /// Apply an executed action to this player's turn-state: as an attack's
    /// target it loses exactly one health (floored at zero); as the
    /// attack's source it is charged its attack speed; a walk charges its
    /// walk speed; a wait charges its wait speed onto its wait time.
    pub fn execute_action(&mut self, action: &Action)
        requires
            old(self).wf(),
            match *action {
                Action::Attack { source, .. } => source == old(self).idx ==> old(self).cooldown
                    + old(self).attack_speed <= i64::MAX,
                Action::Walk { .. } => old(self).cooldown + old(self).walk_speed <= i64::MAX,
                Action::Wait { .. } => old(self).wait_time + old(self).wait_speed <= i64::MAX,
            },
        ensures
            *final(self) == old(self).spec_execute(*action),
            final(self).wf(),
    {
        match action {
            Action::Attack { source, target } => {
                if *source == self.idx {
                    self.cooldown = self.cooldown + self.attack_speed;
                }
                if *target == self.idx {
                    self.health = if self.health - 1 >= 0 {
                        self.health - 1
                    } else {
                        0
                    };
                }
            },
            Action::Walk { .. } => {
                self.cooldown = self.cooldown + self.walk_speed;
            },
            Action::Wait { .. } => {
                self.wait_time = self.wait_time + self.wait_speed;
            },
        }
    }
}

} // verus!
