//! A non-player actor: perceives hostiles through the visibility oracle and
//! plans chase, attack or random-walk actions.

use vstd::prelude::*;
use crate::context::Action;
use crate::context::Effects;
use crate::ipoint::IPoint;
use crate::ipoint::abs_int;
use crate::level::Level;
use crate::level::inside_board;
use crate::level::spec_tile_blocking;
use crate::level::tile_of;
use crate::object::Idx;
use crate::pointset::view_pt;
use crate::rng::rng_shuffle;

verus! {

/// The sign of a mathematical integer.
pub open spec fn sign_int(v: int) -> int {
    if v > 0 {
        1
    } else if v < 0 {
        -1
    } else {
        0
    }
}

/// Whether `p` is orthogonally adjacent to `position`.
pub open spec fn spec_neighbor(position: IPoint, p: IPoint) -> bool {
    ||| (p.x == position.x + 1 && p.y == position.y)
    ||| (p.x == position.x - 1 && p.y == position.y)
    ||| (p.x == position.x && p.y == position.y + 1)
    ||| (p.x == position.x && p.y == position.y - 1)
}

/// Whether an actor standing at `position` may walk onto `p`: orthogonally
/// adjacent, on the board, and free of blocking occupants.
pub open spec fn spec_walk_option(lvl: Level, position: IPoint, p: IPoint) -> bool {
    spec_neighbor(position, p) && inside_board(lvl.size, p) && !spec_tile_blocking(
        tile_of(lvl.entities@, p),
    )
}

/// The cell one step from `position` towards `target` along whichever axis
/// has the larger absolute gap (the vertical axis on ties).
pub open spec fn spec_chase_step(position: IPoint, target: IPoint) -> IPoint {
    let dx = target.x - position.x;
    let dy = target.y - position.y;
    if abs_int(dx) > abs_int(dy) {
        IPoint { x: (position.x + sign_int(dx)) as i32, y: position.y }
    } else {
        IPoint { x: position.x, y: (position.y + sign_int(dy)) as i32 }
    }
}

/// Whether a hostile at `p` is visible to a character standing at
/// `position`: `p` is a member of the visibility oracle's result over the
/// transparent cells within the character's perception range.
pub open spec fn spec_sees(c: Character, lvl: Level, position: IPoint, p: IPoint) -> bool {
    crate::visibility::spec_visibility(
        lvl.spec_trans_within(position, c.range_tenths as int),
        lvl.size,
        position,
        c.range_tenths as int,
    ).contains(view_pt(p))
}

/// What a character's perception must report: its hostile, exactly when
/// the hostile stands in the level at a position the character can see.
pub open spec fn sighting_matches(
    c: Character,
    lvl: Level,
    position: IPoint,
    r: Option<(Idx, IPoint)>,
) -> bool {
    match r {
        None => !(exists|p: IPoint|
            lvl.spec_position_of(c.enemy) == Some(p) && spec_sees(c, lvl, position, p)),
        Some((id, p)) => id == c.enemy && lvl.spec_position_of(c.enemy) == Some(p) && spec_sees(
            c,
            lvl,
            position,
            p,
        ),
    }
}

/// What a character's planning must produce: with no remembered hostile, a
/// walk to some free adjacent cell (a wait when every neighbor is
/// blocked); with a remembered hostile farther than Manhattan distance 1,
/// a greedy step towards it when that step is free, else a wait while the
/// hostile is forgotten; with a remembered hostile at Manhattan distance
/// at most 1, an attack on it.
pub open spec fn plan_matches(
    c: Character,
    lvl: Level,
    position: IPoint,
    a: Action,
    forget: bool,
) -> bool {
    match c.last_enemy {
        None => {
            &&& !forget
            &&& if exists|p: IPoint| spec_walk_option(lvl, position, p) {
                exists|p: IPoint|
                    spec_walk_option(lvl, position, p) && a == (Action::Walk {
                        idx: c.idx,
                        position: p,
                    })
            } else {
                a == (Action::Wait { idx: c.idx })
            }
        },
        Some((eid, epos)) => {
            if epos.spec_rdist(position) > 1 {
                let pref = spec_chase_step(position, epos);
                if spec_walk_option(lvl, position, pref) {
                    a == (Action::Walk { idx: c.idx, position: pref }) && !forget
                } else {
                    a == (Action::Wait { idx: c.idx }) && forget
                }
            } else {
                a == (Action::Attack { source: c.idx, target: eid }) && !forget
            }
        },
    }
}

/// The behavior of a non-player actor.
#[derive(Clone, Copy, Debug)]
pub struct Character {
    /// The id of the entity this character regards as hostile.
    pub enemy: Idx,
    /// The id of the entity this behavior belongs to.
    pub idx: Idx,
    /// Perception range, in tenths of a cell.
    pub range_tenths: u32,
    /// Cost charged onto wait time by a `Wait`.
    pub wait_speed: i64,
    /// Cost charged onto cooldown by a `Walk`.
    pub walk_speed: i64,
    /// Cost charged onto cooldown by an `Attack`.
    pub attack_speed: i64,
    /// Remaining health; the character is dead at zero.
    pub health: i32,
    /// Ticks before the next action.
    pub cooldown: i64,
    /// Accumulated waiting, scheduled like cooldown.
    pub wait_time: i64,
    /// The remembered last-seen hostile: its id and the position it was
    /// last seen at.
    pub last_enemy: Option<(Idx, IPoint)>,
}

impl Character {
    /// Counters are never negative and stats stay within machine bounds.
    pub open spec fn wf(self) -> bool {
        &&& 0 <= self.health
        &&& 0 <= self.cooldown
        &&& 0 <= self.wait_time
        &&& 0 <= self.wait_speed <= 0x1_0000_0000
        &&& 0 <= self.walk_speed <= 0x1_0000_0000
        &&& 0 <= self.attack_speed <= 0x1_0000_0000
        &&& self.range_tenths <= 100000
    }

    /// A character hunting `enemy`, with the engine's standard stats.
    pub fn new(idx: Idx, enemy: Idx) -> (r: Character)
        ensures
            r.idx == idx,
            r.enemy == enemy,
            r.range_tenths == 100,
            r.wait_speed == 10 && r.walk_speed == 10 && r.attack_speed == 10,
            r.health == 10,
            r.cooldown == 0 && r.wait_time == 0,
            r.last_enemy is None,
            r.wf(),
    {
        Character {
            enemy,
            idx,
            range_tenths: 100,
            wait_speed: 10,
            walk_speed: 10,
            attack_speed: 10,
            health: 10,
            cooldown: 0,
            wait_time: 0,
            last_enemy: None,
        }
    }

    /// The character after an executed action touches it.
    pub open spec fn spec_execute(self, action: Action) -> Character {
        match action {
            Action::Attack { source, target } => {
                let charged = if source == self.idx {
                    Character { cooldown: (self.cooldown + self.attack_speed) as i64, ..self }
                } else {
                    self
                };
                if target == self.idx {
                    Character {
                        health: if charged.health - 1 >= 0 {
                            (charged.health - 1) as i32
                        } else {
                            0
                        },
                        ..charged
                    }
                } else {
                    charged
                }
            },
            Action::Walk { .. } => Character {
                cooldown: (self.cooldown + self.walk_speed) as i64,
                ..self
            },
            Action::Wait { .. } => Character {
                wait_time: (self.wait_time + self.wait_speed) as i64,
                ..self
            },
        }
    }

    /// Apply an executed action to this character's turn-state: as an
    /// attack's target it loses exactly one health (floored at zero); as
    /// the attack's source it is charged its attack speed; a walk charges
    /// its walk speed; a wait charges its wait speed onto wait time.
    pub fn execute_action(&mut self, action: &Action)
        requires
            old(self).wf(),
            match *action {
                Action::Attack { source, .. } => source == old(self).idx ==> old(self).cooldown
                    + old(self).attack_speed <= i64::MAX,
                Action::Walk { .. } => old(self).cooldown + old(self).walk_speed <= i64::MAX,
                Action::Wait { .. } => old(self).wait_time + old(self).wait_speed <= i64::MAX,
            },
        ensures
            *final(self) == old(self).spec_execute(*action),
            final(self).wf(),
    {
        match action {
            Action::Attack { source, target } => {
                if *source == self.idx {
                    self.cooldown = self.cooldown + self.attack_speed;
                }
                if *target == self.idx {
                    self.health = if self.health - 1 >= 0 {
                        self.health - 1
                    } else {
                        0
                    };
                }
            },
            Action::Walk { .. } => {
                self.cooldown = self.cooldown + self.walk_speed;
            },
            Action::Wait { .. } => {
                self.wait_time = self.wait_time + self.wait_speed;
            },
        }
    }

    /// The orthogonally adjacent cells the character could walk onto from
    /// `position`: on the board and free of blocking occupants.
    pub fn walk_options(&self, level: &Level, position: IPoint) -> (r: Vec<IPoint>)
        requires
            level.wf(),
            inside_board(level.size, position),
        ensures
            forall|p: IPoint| r@.contains(p) == spec_walk_option(*level, position, p),
    {
        let mut r: Vec<IPoint> = Vec::new();
        let c0 = IPoint { x: position.x + 1, y: position.y };
        let c1 = IPoint { x: position.x - 1, y: position.y };
        let c2 = IPoint { x: position.x, y: position.y + 1 };
        let c3 = IPoint { x: position.x, y: position.y - 1 };
        let f0 = Self::cell_free(level, c0);
        let f1 = Self::cell_free(level, c1);
        let f2 = Self::cell_free(level, c2);
        let f3 = Self::cell_free(level, c3);
        if f0 {
            r.push(c0);
            proof {
                assert(r@.last() == c0);
                assert(r@.contains(c0));
            }
        }
        if f1 {
            r.push(c1);
            proof {
                assert(r@.last() == c1);
                assert(r@.contains(c1));
            }
        }
        if f2 {
            r.push(c2);
            proof {
                assert(r@.last() == c2);
                assert(r@.contains(c2));
            }
        }
        if f3 {
            r.push(c3);
            proof {
                assert(r@.last() == c3);
                assert(r@.contains(c3));
            }
        }
        proof {
            let ghost n0: int = if f0 {
                1int
            } else {
                0int
            };
            let ghost n1: int = if f1 {
                1int
            } else {
                0int
            };
            let ghost n2: int = if f2 {
                1int
            } else {
                0int
            };
            if f0 {
                assert(r@[0] == c0);
            }
            if f1 {
                assert(r@[n0] == c1);
            }
            if f2 {
                assert(r@[n0 + n1] == c2);
            }
            if f3 {
                assert(r@[n0 + n1 + n2] == c3);
            }
            assert forall|p: IPoint| r@.contains(p) == spec_walk_option(
                *level,
                position,
                p,
            ) by {
                if spec_walk_option(*level, position, p) {
                    assert(p == c0 || p == c1 || p == c2 || p == c3);
                    assert(r@.contains(p));
                }
                if r@.contains(p) {
                    let i = choose|i: int| 0 <= i < r@.len() && r@[i] == p;
                    assert(p == c0 || p == c1 || p == c2 || p == c3);
                    assert(spec_walk_option(*level, position, p));
                }
            }
        }
        r
    }

    /// Whether the cell is on the board and free of blocking occupants.
    fn cell_free(level: &Level, p: IPoint) -> (r: bool)
        requires
            level.wf(),
        ensures
            r == (inside_board(level.size, p) && !spec_tile_blocking(tile_of(level.entities@, p))),
    {
        match level.get_tile(p) {
            None => false,
            Some(tile) => !Level::is_blocking(&tile),
        }
    }

    /// Plan one action and push it onto the effects queue; reports whether
    /// the remembered hostile must be forgotten (its planned chase step was
    /// blocked).
    pub fn plan_action(&self, level: &Level, position: IPoint, effects: &mut Effects) -> (forget:
        bool)
        requires
            level.wf(),
            inside_board(level.size, position),
        ensures
            final(effects).messages == old(effects).messages,
            final(effects).actions@.len() == old(effects).actions@.len() + 1,
            final(effects).actions@ == old(effects).actions@.push(final(effects).actions@.last()),
            plan_matches(*self, *level, position, final(effects).actions@.last(), forget),
    {
        broadcast use vstd::seq_lib::group_to_multiset_ensures;

        let mut forget = false;
        let action: Action;
        match self.last_enemy {
            None => {
                let mut options = self.walk_options(level, position);
                if options.len() == 0 {
                    proof {
                        assert forall|p: IPoint| !spec_walk_option(*level, position, p) by {
                            assert(!options@.contains(p));
                        }
                    }
                    action = Action::Wait { idx: self.idx };
                } else {
                    let ghost opts0 = options@;
                    rng_shuffle(&mut effects.rand, &mut options);
                    let chosen = options[options.len() - 1];
                    proof {
                        assert(options@.contains(chosen));
                        assert(options@.to_multiset().contains(chosen));
                        assert(opts0.to_multiset().contains(chosen));
                        assert(opts0.contains(chosen));
                        assert(spec_walk_option(*level, position, chosen));
                    }
                    action = Action::Walk { idx: self.idx, position: chosen };
                }
            },
            Some((eid, epos)) => {
                if epos.rdist(&position) > 1 {
                    let dx: i64 = epos.x as i64 - position.x as i64;
                    let dy: i64 = epos.y as i64 - position.y as i64;
                    let adx: i64 = if dx < 0 {
                        -dx
                    } else {
                        dx
                    };
                    let ady: i64 = if dy < 0 {
                        -dy
                    } else {
                        dy
                    };
                    let pref: IPoint = if adx > ady {
                        let sx: i32 = if dx > 0 {
                            1
                        } else {
                            -1
                        };
                        IPoint { x: position.x + sx, y: position.y }
                    } else {
                        let sy: i32 = if dy > 0 {
                            1
                        } else if dy < 0 {
                            -1
                        } else {
                            0
                        };
                        IPoint { x: position.x, y: position.y + sy }
                    };
                    proof {
                        assert(pref == spec_chase_step(position, epos));
                    }
                    if Self::cell_free(level, pref) {
                        proof {
                            assert(spec_neighbor(position, pref));
                        }
                        action = Action::Walk { idx: self.idx, position: pref };
                    } else {
                        forget = true;
                        action = Action::Wait { idx: self.idx };
                    }
                } else {
                    action = Action::Attack { source: self.idx, target: eid };
                }
            },
        }
        effects.actions.push(action);
        forget
    }

    /// What this character perceives: the hostile entity, when it stands
    /// in the level and its position is visible from `position` at this
    /// character's perception range.
    pub fn update_target(&self, level: &Level, position: IPoint) -> (r: Option<(Idx, IPoint)>)
        requires
            level.wf(),
            inside_board(level.size, position),
            self.wf(),
        ensures
            sighting_matches(*self, *level, position, r),
    {
        match level.get_position(self.enemy) {
            None => {
                proof {
                    assert(level.spec_position_of(self.enemy) is None);
                }
                None
            },
            Some(p) => {
                let visible = level.visible_points(position, self.range_tenths);
                proof {
                    assert(level.spec_position_of(self.enemy) == Some(p));
                }
                if visible.contains(&p) {
                    Some((self.enemy, p))
                } else {
                    None
                }
            },
        }
    }

    /// Remember a sighted hostile: the remembered target is replaced and
    /// the accumulated wait time cleared. Nothing changes when nothing was
    /// sighted.
    pub fn apply_sighting(&mut self, sighting: Option<(Idx, IPoint)>)
        ensures
            *final(self) == match sighting {
                Some(s) => Character { last_enemy: Some(s), wait_time: 0, ..*old(self) },
                None => *old(self),
            },
    {
        match sighting {
            Some(s) => {
                self.last_enemy = Some(s);
                self.wait_time = 0;
            },
            None => {},
        }
    }

    /// Forget the remembered hostile.
    pub fn forget_enemy(&mut self)
        ensures
            *final(self) == (Character { last_enemy: None, ..*old(self) }),
    {
        self.last_enemy = None;
    }
}

} // verus!
