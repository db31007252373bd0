//! Rendering primitives and the behavior capabilities of entities.
//!
//! Every entity owns one behavior object. A behavior exposes static traits
//! (glyph, stacking ordinal, blocks-movement, blocks-sight, terrain
//! classification) and, for active entities, mutable turn-state (cooldown,
//! accumulated wait time, the remembered hostile). Sight-blocking,
//! movement-blocking and terrain-vs-actor classification are three
//! independent capabilities.

use vstd::prelude::*;
use crate::character::Character;
use crate::character::plan_matches;
use crate::character::sighting_matches;
use crate::context::Action;
use crate::context::Effects;
use crate::floor::Floor;
use crate::ipoint::IPoint;
use crate::level::Level;
use crate::level::inside_board;
use crate::player::Player;
use crate::wall::Wall;

verus! {

/// An entity id. Ids are issued monotonically by the world and never
/// reused.
pub type Idx = u32;

/// An RGB color.
#[derive(Clone, Copy, Debug, PartialEq, Eq, Structural)]
pub struct Color(pub u8, pub u8, pub u8);

/// The glyph of a cell.
#[derive(Clone, Copy, Debug, PartialEq, Eq, Structural)]
pub enum Icon {
    Wall,
    Player,
    Enemy,
    Floor,
    Empty,
}

/// What one cell of a view shows: a glyph and its color.
#[derive(Clone, Copy, Debug, PartialEq, Eq, Structural)]
pub struct Pixel(pub Icon, pub Color);

impl Pixel {
    /// The pixel of a cell with nothing to show.
    pub fn empty() -> (r: Pixel)
        ensures
            r == (Pixel(Icon::Empty, Color(255, 255, 255))),
    {
        Pixel(Icon::Empty, Color(255, 255, 255))
    }

    /// The same glyph desaturated, for cells drawn from remembered rather
    /// than live state.
    pub fn gray(&self) -> (r: Pixel)
        ensures
            r == (Pixel(self.0, Color(128, 128, 128))),
    {
        Pixel(self.0, Color(128, 128, 128))
    }
}

/// The behavior object of an entity.
#[derive(Clone, Copy, Debug)]
pub enum Object {
    Wall(Wall),
    Floor(Floor),
    Character(Character),
    Player(Player),
}

impl Object {
    /// The id of the entity this behavior belongs to.
    pub open spec fn spec_idx(self) -> Idx {
        match self {
            Object::Wall(w) => w.idx,
            Object::Floor(f) => f.idx,
            Object::Character(c) => c.idx,
            Object::Player(p) => p.idx,
        }
    }

    /// Turn-state counters are never negative, and stats stay within the
    /// engine's machine bounds.
    pub open spec fn wf(self) -> bool {
        match self {
            Object::Wall(_) => true,
            Object::Floor(_) => true,
            Object::Character(c) => c.wf(),
            Object::Player(p) => p.wf(),
        }
    }

    /// The id of the entity this behavior belongs to.
    pub fn get_idx(&self) -> (r: Idx)
        ensures
            r == self.spec_idx(),
    {
        match self {
            Object::Wall(w) => w.idx,
            Object::Floor(f) => f.idx,
            Object::Character(c) => c.idx,
            Object::Player(p) => p.idx,
        }
    }

    /// The glyph and color this behavior is drawn with.
    pub open spec fn spec_pixel(self) -> Pixel {
        match self {
            Object::Wall(_) => Pixel(Icon::Wall, Color(255, 255, 255)),
            Object::Floor(_) => Pixel(Icon::Floor, Color(255, 255, 255)),
            Object::Character(_) => Pixel(Icon::Player, Color(255, 255, 255)),
            Object::Player(_) => Pixel(Icon::Player, Color(255, 255, 255)),
        }
    }

    /// The glyph and color this behavior is drawn with.
    pub fn get_pixel(&self) -> (r: Pixel)
        ensures
            r == self.spec_pixel(),
    {
        match self {
            Object::Wall(_) => Pixel(Icon::Wall, Color(255, 255, 255)),
            Object::Floor(_) => Pixel(Icon::Floor, Color(255, 255, 255)),
            Object::Character(_) => Pixel(Icon::Player, Color(255, 255, 255)),
            Object::Player(_) => Pixel(Icon::Player, Color(255, 255, 255)),
        }
    }

    /// Stacking priority among the occupants of one tile.
    pub open spec fn spec_ordinal(self) -> i32 {
        match self {
            Object::Floor(_) => -1024i32,
            _ => 0i32,
        }
    }

    /// Stacking priority among the occupants of one tile.
    pub fn get_ordinal(&self) -> (r: i32)
        ensures
            r == self.spec_ordinal(),
    {
        match self {
            Object::Floor(_) => -1024i32,
            _ => 0i32,
        }
    }

    /// Whether this behavior is part of the environment (terrain), as
    /// opposed to an actor.
    pub open spec fn spec_is_environment(self) -> bool {
        match self {
            Object::Wall(_) => true,
            Object::Floor(_) => true,
            _ => false,
        }
    }

    /// Whether this behavior is part of the environment (terrain).
    pub fn is_environment(&self) -> (r: bool)
        ensures
            r == self.spec_is_environment(),
    {
        match self {
            Object::Wall(_) => true,
            Object::Floor(_) => true,
            _ => false,
        }
    }

    /// Whether this behavior blocks movement into its tile.
    pub open spec fn spec_is_blocking(self) -> bool {
        match self {
            Object::Floor(_) => false,
            _ => true,
        }
    }

    /// Whether this behavior blocks movement into its tile.
    pub fn is_blocking(&self) -> (r: bool)
        ensures
            r == self.spec_is_blocking(),
    {
        match self {
            Object::Floor(_) => false,
            _ => true,
        }
    }

    /// Whether this behavior blocks sight through its tile.
    pub open spec fn spec_is_opaque(self) -> bool {
        match self {
            Object::Wall(_) => true,
            _ => false,
        }
    }

    /// Whether this behavior blocks sight through its tile.
    pub fn is_opaque(&self) -> (r: bool)
        ensures
            r == self.spec_is_opaque(),
    {
        match self {
            Object::Wall(_) => true,
            _ => false,
        }
    }

    /// The display name of this behavior; both kinds of actor present
    /// themselves the same way.
    pub fn name(&self) -> (r: &'static str)
        ensures
            r@ == match self {
                Object::Wall(_) => "Wall"@,
                Object::Floor(_) => "Floor"@,
                _ => "Character"@,
            },
    {
        match self {
            Object::Wall(_) => "Wall",
            Object::Floor(_) => "Floor",
            Object::Character(_) => "Character",
            Object::Player(_) => "Character",
        }
    }

    /// Whether this behavior takes turns.
    pub open spec fn spec_is_active(self) -> bool {
        match self {
            Object::Character(_) => true,
            Object::Player(_) => true,
            _ => false,
        }
    }

    /// Whether this behavior takes turns.
    pub fn is_active(&self) -> (r: bool)
        ensures
            r == self.spec_is_active(),
    {
        match self {
            Object::Character(_) => true,
            Object::Player(_) => true,
            _ => false,
        }
    }

    /// Ticks remaining before this behavior may act; passive behaviors and
    /// dead characters never act.
    pub open spec fn spec_cooldown(self) -> i64 {
        match self {
            Object::Character(c) => if c.health > 0 {
                if c.cooldown >= c.wait_time {
                    c.cooldown
                } else {
                    c.wait_time
                }
            } else {
                i64::MAX
            },
            Object::Player(p) => if p.cooldown >= p.wait_time {
                p.cooldown
            } else {
                p.wait_time
            },
            _ => i64::MAX,
        }
    }

    /// Ticks remaining before this behavior may act.
    pub fn get_cooldown(&self) -> (r: i64)
        ensures
            r == self.spec_cooldown(),
    {
        match self {
            Object::Character(c) => {
                if c.health > 0 {
                    if c.cooldown >= c.wait_time {
                        c.cooldown
                    } else {
                        c.wait_time
                    }
                } else {
                    i64::MAX
                }
            },
            Object::Player(p) => {
                if p.cooldown >= p.wait_time {
                    p.cooldown
                } else {
                    p.wait_time
                }
            },
            _ => i64::MAX,
        }
    }

    /// The behavior after `interval` ticks pass: cooldown and wait time
    /// drop by the interval, floored at zero.
    pub open spec fn spec_lapse(self, interval: i64) -> Object {
        match self {
            Object::Character(c) => Object::Character(
                Character {
                    cooldown: if c.cooldown - interval >= 0 {
                        (c.cooldown - interval) as i64
                    } else {
                        0
                    },
                    wait_time: if c.wait_time - interval >= 0 {
                        (c.wait_time - interval) as i64
                    } else {
                        0
                    },
                    ..c
                },
            ),
            Object::Player(p) => Object::Player(
                Player {
                    cooldown: if p.cooldown - interval >= 0 {
                        (p.cooldown - interval) as i64
                    } else {
                        0
                    },
                    wait_time: if p.wait_time - interval >= 0 {
                        (p.wait_time - interval) as i64
                    } else {
                        0
                    },
                    ..p
                },
            ),
            _ => self,
        }
    }

    /// Let `interval` ticks pass: cooldown and wait time drop by the
    /// interval and never below zero.
    pub fn lapse_time(&mut self, interval: i64)
        requires
            old(self).wf(),
            0 <= interval,
        ensures
            *final(self) == old(self).spec_lapse(interval),
            final(self).wf(),
    {
        match self {
            Object::Character(c) => {
                c.cooldown = if c.cooldown - interval >= 0 {
                    c.cooldown - interval
                } else {
                    0
                };
                c.wait_time = if c.wait_time - interval >= 0 {
                    c.wait_time - interval
                } else {
                    0
                };
            },
            Object::Player(p) => {
                p.cooldown = if p.cooldown - interval >= 0 {
                    p.cooldown - interval
                } else {
                    0
                };
                p.wait_time = if p.wait_time - interval >= 0 {
                    p.wait_time - interval
                } else {
                    0
                };
            },
            _ => {},
        }
    }

    /// Whether charging this one action's cost onto this behavior's
    /// counters stays within machine bounds.
    pub open spec fn charge_room_for(self, action: Action) -> bool {
        match self {
            Object::Character(c) => match action {
                Action::Attack { source, .. } => source == c.idx ==> c.cooldown + c.attack_speed
                    <= i64::MAX,
                Action::Walk { .. } => c.cooldown + c.walk_speed <= i64::MAX,
                Action::Wait { .. } => c.wait_time + c.wait_speed <= i64::MAX,
            },
            Object::Player(p) => match action {
                Action::Attack { source, .. } => source == p.idx ==> p.cooldown + p.attack_speed
                    <= i64::MAX,
                Action::Walk { .. } => p.cooldown + p.walk_speed <= i64::MAX,
                Action::Wait { .. } => p.wait_time + p.wait_speed <= i64::MAX,
            },
            _ => true,
        }
    }

    /// Whether a whole executed action stays within machine bounds on this
    /// behavior's counters: an attack whose source and target are the same
    /// entity charges its attack speed twice.
    pub open spec fn can_charge(self) -> bool {
        match self {
            Object::Character(c) => c.cooldown + c.attack_speed + c.attack_speed <= i64::MAX
                && c.cooldown + c.walk_speed <= i64::MAX && c.wait_time + c.wait_speed
                <= i64::MAX,
            Object::Player(p) => p.cooldown + p.attack_speed + p.attack_speed <= i64::MAX
                && p.cooldown + p.walk_speed <= i64::MAX && p.wait_time + p.wait_speed
                <= i64::MAX,
            _ => true,
        }
    }

    /// The behavior after an executed action touches it: an attack it is
    /// the target of costs one health (floored at zero); an attack it is
    /// the source of charges its attack speed onto its cooldown; a walk
    /// charges its walk speed onto its cooldown; a wait charges its wait
    /// speed onto its wait time.
    pub open spec fn spec_execute(self, action: Action) -> Object {
        match self {
            Object::Character(c) => Object::Character(c.spec_execute(action)),
            Object::Player(p) => Object::Player(p.spec_execute(action)),
            _ => self,
        }
    }

    /// Apply an executed action to this behavior's turn-state.
    pub fn execute_action(&mut self, action: &Action)
        requires
            old(self).wf(),
            old(self).charge_room_for(*action),
        ensures
            *final(self) == old(self).spec_execute(*action),
            final(self).wf(),
    {
        match self {
            Object::Character(c) => c.execute_action(action),
            Object::Player(p) => p.execute_action(action),
            _ => {},
        }
    }

    /// What planning must push for this behavior: a character plans by its
    /// policy, the player plans its externally supplied action.
    pub open spec fn spec_plan_pushes(
        self,
        lvl: Level,
        position: IPoint,
        a: Action,
        forget: bool,
    ) -> bool {
        match self {
            Object::Character(c) => plan_matches(c, lvl, position, a, forget),
            Object::Player(p) => a == p.action && !forget,
            _ => false,
        }
    }

    /// Plan one action and push it onto the effects queue (active
    /// behaviors only; passive ones push nothing). Reports whether the
    /// remembered hostile must be forgotten.
    pub fn plan_action(&self, level: &Level, position: IPoint, effects: &mut Effects) -> (forget:
        bool)
        requires
            level.wf(),
            inside_board(level.size, position),
            self.wf(),
        ensures
            final(effects).messages == old(effects).messages,
            self.spec_is_active() ==> final(effects).actions@.len() == old(
                effects,
            ).actions@.len() + 1 && final(effects).actions@ == old(effects).actions@.push(
                final(effects).actions@.last(),
            ) && self.spec_plan_pushes(
                *level,
                position,
                final(effects).actions@.last(),
                forget,
            ),
            !self.spec_is_active() ==> final(effects).actions@ == old(effects).actions@ && !forget,
    {
        match self {
            Object::Character(c) => c.plan_action(level, position, effects),
            Object::Player(p) => {
                effects.actions.push(p.action);
                false
            },
            _ => false,
        }
    }

    /// What this behavior perceives from `position`: characters sight
    /// their hostile through the visibility oracle; other behaviors
    /// perceive nothing.
    pub fn update_target(&self, level: &Level, position: IPoint) -> (r: Option<(Idx, IPoint)>)
        requires
            level.wf(),
            inside_board(level.size, position),
            self.wf(),
        ensures
            match *self {
                Object::Character(c) => sighting_matches(c, *level, position, r),
                _ => r is None,
            },
    {
        match self {
            Object::Character(c) => c.update_target(level, position),
            _ => None,
        }
    }

    /// The behavior after remembering a sighting: a character that sighted
    /// its hostile replaces its remembered target and clears its wait
    /// time; everything else is unchanged.
    pub open spec fn spec_apply_sighting(self, sighting: Option<(Idx, IPoint)>) -> Object {
        match self {
            Object::Character(c) => match sighting {
                Some(s) => Object::Character(
                    Character { last_enemy: Some(s), wait_time: 0, ..c },
                ),
                None => self,
            },
            _ => self,
        }
    }

    /// Remember a sighting.
    pub fn apply_sighting(&mut self, sighting: Option<(Idx, IPoint)>)
        requires
            old(self).wf(),
        ensures
            *final(self) == old(self).spec_apply_sighting(sighting),
            final(self).wf(),
    {
        match self {
            Object::Character(c) => c.apply_sighting(sighting),
            _ => {},
        }
    }

    /// The behavior after forgetting its remembered hostile.
    pub open spec fn spec_forget(self) -> Object {
        match self {
            Object::Character(c) => Object::Character(Character { last_enemy: None, ..c }),
            _ => self,
        }
    }

    /// Forget the remembered hostile (characters only).
    pub fn forget_enemy(&mut self)
        requires
            old(self).wf(),
        ensures
            *final(self) == old(self).spec_forget(),
            final(self).wf(),
    {
        match self {
            Object::Character(c) => c.forget_enemy(),
            _ => {},
        }
    }
}

} // verus!
