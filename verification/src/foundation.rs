//! The game as a whole: one world plus the player-side driver.

use vstd::prelude::*;
use vstd::arithmetic::div_mod::lemma_fundamental_div_mod_converse;
use crate::context::Action;
use crate::errors::EngineError;
use crate::floor::Floor;
use crate::ipoint::IPoint;
use crate::level::Entity;
use crate::level::Level;
use crate::level::inside_board;
use crate::object::Object;
use crate::player::Player;
use crate::playerdata::PlayerData;
use crate::pointset::PointSet;
use crate::pointset::view_pt;
use crate::wall::Wall;
use crate::world::World;

verus! {

/// The terrain entity the board builder places at build index `k` of the
/// row-major scan: cell `(k % size.x, k / size.x)`, a floor iff the cell
/// is carved, with entity id `k + 2` (ids 0 and 1 go to the player and the
/// level).
pub open spec fn spec_terrain_entity(size: IPoint, floors: Set<(int, int)>, k: int) -> Entity {
    let cx = k % (size.x as int);
    let cy = k / (size.x as int);
    Entity {
        object: if floors.contains((cx, cy)) {
            Object::Floor(Floor { idx: (k + 2) as u32 })
        } else {
            Object::Wall(Wall { idx: (k + 2) as u32 })
        },
        level: 1,
        position: IPoint { x: cx as i32, y: cy as i32 },
    }
}

/// Whether `p` is the first carved cell of the board, in row order.
pub open spec fn spec_first_floor(size: IPoint, floors: Set<(int, int)>, p: IPoint) -> bool {
    &&& inside_board(size, p)
    &&& floors.contains(view_pt(p))
    &&& forall|q: (int, int)|
        (0 <= q.0 < size.x && 0 <= q.1 < size.y && #[trigger] floors.contains(q)) ==> (q.1 > p.y
            || (q.1 == p.y && q.0 >= p.x))
}

/// A running game: the world and the player-side driver.
pub struct GameState {
    pub game: World,
    pub player: PlayerData,
}

impl GameState {
    /// The world is well formed and chargeable, and the player's entity
    /// stands in it with a player behavior.
    pub open spec fn wf(self) -> bool {
        &&& self.game.wf()
        &&& self.game.all_can_charge()
        &&& self.player.wf()
        &&& self.player.player_ok(self.game)
    }

    /// Start a game on a finished tile grid: every cell of the board gets
    /// a floor or a wall entity according to `floors`, and the player
    /// spawns on the first floor cell in row order. A grid without a
    /// single floor cell is refused.
    pub fn new(size: IPoint, floors: &PointSet) -> (r: Result<GameState, EngineError>)
        requires
            1 <= size.x <= 4096,
            1 <= size.y <= 4096,
        ensures
            match r {
                Ok(gs) => {
                    &&& gs.wf()
                    &&& gs.game.time == 0
                    &&& gs.player.player == 0
                    &&& gs.player.views@.len() == 0
                    &&& gs.player.messages@.len() == 0
                    &&& gs.player.range_tenths == 80
                    &&& gs.game.next_id == 2 + size.x * size.y
                    &&& gs.game.levels@.len() == 1
                    &&& gs.game.levels@[0].idx == 1
                    &&& gs.game.levels@[0].size == size
                    &&& gs.game.levels@[0].entities@.len() == size.x * size.y + 1
                    &&& (forall|k: int|
                        0 <= k < size.x * size.y ==> #[trigger] gs.game.levels@[0].entities@[k]
                            == spec_terrain_entity(size, floors@, k))
                    &&& ({
                        let pl = gs.game.levels@[0].entities@[size.x * size.y];
                        &&& spec_first_floor(size, floors@, pl.position)
                        &&& pl.level == 1
                        &&& pl.object == Object::Player(
                            Player {
                                idx: 0,
                                range_tenths: 100,
                                wait_speed: 10,
                                walk_speed: 10,
                                attack_speed: 10,
                                health: 10,
                                cooldown: 0,
                                wait_time: 0,
                                action: Action::Wait { idx: 0 },
                            },
                        )
                    })
                },
                Err(e) => e == EngineError::NoSpawnCell && forall|q: (int, int)|
                    (0 <= q.0 < size.x && 0 <= q.1 < size.y) ==> !(#[trigger] floors@.contains(
                        q,
                    )),
            },
    {
        let mut game = World::new();
        let player_idx = game.next_id();
        let level_idx = game.next_id();
        let mut level = Level::new(level_idx, size);
        let mut y: i32 = 0;
        while y < size.y
            invariant
                1 <= size.x <= 4096,
                1 <= size.y <= 4096,
                0 <= y <= size.y,
                level.wf(),
                level.size == size,
                level.idx == level_idx,
                player_idx == 0,
                level_idx == 1,
                game.levels@.len() == 0,
                game.time == 0,
                2 <= game.next_id,
                game.next_id == 2 + y * size.x,
                level.entities@.len() == y * size.x,
                forall|k: int|
                    0 <= k < level.entities@.len() ==> #[trigger] level.entities@[k]
                        == spec_terrain_entity(size, floors@, k),
                forall|i: int|
                    0 <= i < level.entities@.len() ==> 2 <= (
                    #[trigger] level.entities@[i]).object.spec_idx() < game.next_id,
                forall|i: int|
                    0 <= i < level.entities@.len() ==> (
                    #[trigger] level.entities@[i]).object.can_charge(),
            decreases size.y - y,
        {
            let mut x: i32 = 0;
            while x < size.x
                invariant
                    1 <= size.x <= 4096,
                    1 <= size.y <= 4096,
                    0 <= y < size.y,
                    0 <= x <= size.x,
                    level.wf(),
                    level.size == size,
                    level.idx == level_idx,
                    player_idx == 0,
                    level_idx == 1,
                    game.levels@.len() == 0,
                    game.time == 0,
                    2 <= game.next_id,
                    game.next_id == 2 + y * size.x + x,
                    level.entities@.len() == y * size.x + x,
                    forall|k: int|
                        0 <= k < level.entities@.len() ==> #[trigger] level.entities@[k]
                            == spec_terrain_entity(size, floors@, k),
                    forall|i: int|
                        0 <= i < level.entities@.len() ==> 2 <= (
                        #[trigger] level.entities@[i]).object.spec_idx() < game.next_id,
                    forall|i: int|
                        0 <= i < level.entities@.len() ==> (
                        #[trigger] level.entities@[i]).object.can_charge(),
                decreases size.x - x,
            {
                proof {
                    assert(y * size.x + x < size.y * size.x) by (nonlinear_arith)
                        requires
                            0 <= y < size.y,
                            0 <= x < size.x,
                    ;
                    assert(size.y * size.x <= 4096 * 4096) by (nonlinear_arith)
                        requires
                            1 <= size.x <= 4096,
                            1 <= size.y <= 4096,
                    ;
                }
                let oid = game.next_id();
                let p = IPoint { x, y };
                let object = if floors.contains(&p) {
                    Object::Floor(Floor::new(oid))
                } else {
                    Object::Wall(Wall::new(oid))
                };
                let added = level.add_entity(object, p);
                proof {
                    assert(!matches!(added, Result::<(), EngineError>::Err(_)));
                    let k0 = y * size.x + x;
                    lemma_fundamental_div_mod_converse(k0, size.x as int, y as int, x as int);
                    assert(level.entities@[k0] == spec_terrain_entity(size, floors@, k0));
                }
                x = x + 1;
            }
            y = y + 1;
            proof {
                assert(game.next_id == 2 + y * size.x) by (nonlinear_arith)
                    requires
                        game.next_id == 2 + (y - 1) * size.x + size.x,
                ;
            }
        }
        // the player spawns on the first free cell, in row order
        let mut spawn: Option<IPoint> = None;
        let mut sy: i32 = 0;
        while sy < size.y
            invariant
                1 <= size.x <= 4096,
                1 <= size.y <= 4096,
                0 <= sy <= size.y,
                match spawn {
                    Some(p) => spec_first_floor(size, floors@, p),
                    None => forall|q: (int, int)|
                        (0 <= q.0 < size.x && 0 <= q.1 < sy) ==> !(#[trigger] floors@.contains(
                            q,
                        )),
                },
            decreases size.y - sy,
        {
            let mut sx: i32 = 0;
            while sx < size.x
                invariant
                    1 <= size.x <= 4096,
                    1 <= size.y <= 4096,
                    0 <= sy < size.y,
                    0 <= sx <= size.x,
                    match spawn {
                        Some(p) => spec_first_floor(size, floors@, p),
                        None => forall|q: (int, int)|
                            (0 <= q.0 < size.x && q.1 < sy && 0 <= q.1) || (q.1 == sy && 0 <= q.0
                                < sx) ==> !(#[trigger] floors@.contains(q)),
                    },
                decreases size.x - sx,
            {
                if spawn.is_none() {
                    let p = IPoint { x: sx, y: sy };
                    if floors.contains(&p) {
                        spawn = Some(p);
                    }
                }
                sx = sx + 1;
            }
            sy = sy + 1;
        }
        let pos = match spawn {
            None => {
                return Err(EngineError::NoSpawnCell);
            },
            Some(p) => p,
        };
        let added = level.add_entity(Object::Player(Player::new(player_idx)), pos);
        let ghost pl_i = level.entities@.len() - 1;
        proof {
            assert(!matches!(added, Result::<(), EngineError>::Err(_)));
            assert(level.entities@[pl_i].object.spec_idx() == player_idx);
            assert(level.contains_id(player_idx));
            assert forall|id: u32| #[trigger] level.contains_id(id) implies !game.spec_has(
                id,
            ) by {}
        }
        game.add_level(level);
        let player = PlayerData::new(player_idx);
        let gs = GameState { game, player };
        proof {
            assert(gs.game.levels@[0] == level);
            crate::world::lemma_lookup_unique(gs.game, player_idx, 0, pl_i);
            assert(gs.game.spec_lookup(player_idx) == Some(level.entities@[pl_i]));
            assert forall|a: int, i2: int|
                gs.game.slot_ok(a, i2) implies (#[trigger] gs.game.levels@[a].entities@[
                i2
            ]).object.can_charge() by {
                assert(a == 0);
            }
            assert(size.x * size.y == size.y * size.x) by (nonlinear_arith);
            assert(pl_i == size.x * size.y);
            assert(level.entities@[pl_i].object == Object::Player(
                Player {
                    idx: 0,
                    range_tenths: 100,
                    wait_speed: 10,
                    walk_speed: 10,
                    attack_speed: 10,
                    health: 10,
                    cooldown: 0,
                    wait_time: 0,
                    action: Action::Wait { idx: 0 },
                },
            ));
        }
        Ok(gs)
    }

    /// Hand one input token to the player-side driver. `Ok(true)` reports
    /// a completed player turn (the move stored, executed or dropped on a
    /// blocked cell, and the remembered view refreshed); `Ok(false)` an
    /// ignored token or an exhausted turn budget, with the player-side
    /// state untouched.
    pub fn process_key(&mut self, string: &str) -> (r: Result<bool, EngineError>)
        requires
            old(self).wf(),
        ensures
            final(self).game.wf(),
            final(self).game.all_can_charge(),
            final(self).player.wf(),
            final(self).player.player == old(self).player.player,
            final(self).player.messages@ == old(self).player.messages@,
            final(self).game.time >= old(self).game.time,
            r is Ok ==> final(self).wf(),
            (string@.len() != 1 || (string@[0] != 'w' && string@[0] != 's' && string@[0] != 'a'
                && string@[0] != 'd')) ==> *final(self) == *old(self) && r == Result::<
                bool,
                EngineError,
            >::Ok(false),
            r == Result::<bool, EngineError>::Ok(false) ==> final(self).player == old(self).player && final(self).player.player_pos(final(self).game) == old(self).player.player_pos(old(self).game) && final(self).player.player_action(
                final(self).game,
            ) == old(self).player.player_action(old(self).game),
            r == Result::<bool, EngineError>::Ok(true) ==> ({
                let p0 = old(self).player.player_pos(old(self).game);
                let d = crate::playerdata::spec_dir(string@[0]);
                let tgt = IPoint { x: (p0.x + d.x) as i32, y: (p0.y + d.y) as i32 };
                &&& final(self).player.player_action(final(self).game) == (Action::Walk {
                    idx: old(self).player.player,
                    position: tgt,
                })
                &&& (final(self).player.player_pos(final(self).game) == p0 || final(self).player.player_pos(final(self).game) == tgt)
                &&& exists|a: int|
                    0 <= a < final(self).game.levels@.len() && (#[trigger] final(self).game.levels@[a]).contains_id(old(self).player.player) && ({
                        let lvl = final(self).game.levels@[a];
                        let pos = lvl.spec_position_of(old(self).player.player).unwrap();
                        let vis = crate::playerdata::vis_of(
                            lvl,
                            pos,
                            old(self).player.range_tenths as int,
                        );
                        match crate::playerdata::view_of(final(self).player.views@, lvl.idx) {
                            Some(m) => m.wf() && forall|q: (int, int)| #[trigger]
                                m.spec_get(q) == if vis.contains(q) {
                                    Some(crate::playerdata::mem_pix(lvl, q))
                                } else {
                                    match crate::playerdata::view_of(
                                        old(self).player.views@,
                                        lvl.idx,
                                    ) {
                                        Some(m0) => m0.spec_get(q),
                                        None => None,
                                    }
                                },
                            None => false,
                        }
                    })
            }),
    {
        let gs = self;
        gs.player.process_key(&mut gs.game, string)
    }

    /// The player's current view of its level: live pixels for the cells
    /// the player sees, remembered pixels for the rest.
    pub fn get_view(&self) -> (r: crate::view::View)
        requires
            self.wf(),
        ensures
            r.tiles.wf(),
            exists|a: int|
                0 <= a < self.game.levels@.len() && (#[trigger] self.game.levels@[a]).contains_id(
                    self.player.player,
                ) && ({
                    let lvl = self.game.levels@[a];
                    let pos = lvl.spec_position_of(self.player.player).unwrap();
                    let vis = crate::playerdata::vis_of(
                        lvl,
                        pos,
                        self.player.range_tenths as int,
                    );
                    &&& r.size == lvl.size
                    &&& forall|q: (int, int)| #[trigger]
                        r.tiles.spec_get(q) == if vis.contains(q) {
                            Some(crate::playerdata::live_pix(lvl, q))
                        } else {
                            match crate::playerdata::view_of(self.player.views@, lvl.idx) {
                                Some(m) => m.spec_get(q),
                                None => None,
                            }
                        }
                }),
    {
        self.player.build_view(&self.game)
    }

    /// The most recent `count` entries of the message log, oldest first.
    pub fn get_messages(&self, count: i32) -> (r: Vec<String>)
        ensures
            ({
                let len = self.player.messages@.len() as int;
                let keep = if count <= 0 {
                    0int
                } else if count >= len {
                    len
                } else {
                    count as int
                };
                r@ == self.player.messages@.subrange(len - keep, len)
            }),
    {
        let messages = self.player.get_messages();
        let len = messages.len();
        let keep: usize = if count <= 0 {
            0
        } else if (count as usize) >= len {
            len
        } else {
            count as usize
        };
        let start = len - keep;
        let mut r: Vec<String> = Vec::new();
        let mut i: usize = start;
        proof {
            assert(r@ =~= messages@.subrange(start as int, start as int));
        }
        while i < len
            invariant
                start <= i <= len,
                len == messages@.len(),
                messages@ == self.player.messages@,
                r@ == messages@.subrange(start as int, i as int),
            decreases len - i,
        {
            let s = messages[i].clone();
            r.push(s);
            proof {
                assert(r@ =~= messages@.subrange(start as int, i as int + 1));
            }
            i = i + 1;
        }
        r
    }
}

} // verus!
