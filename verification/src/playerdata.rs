//! The player-side driver: it advances the world until the player's own
//! turn, translates input tokens into movement intents, and keeps the
//! player's remembered view of each level.

use vstd::prelude::*;
use vstd::pervasive::unreached;
use crate::context::Action;
use crate::errors::EngineError;
use crate::ipoint::IPoint;
use crate::level::Entity;
use crate::level::Level;
use crate::level::inside_board;
use crate::level::spec_build_mem_pixel;
use crate::level::spec_build_pixel;
use crate::level::tile_of;
use crate::object::Idx;
use crate::object::Object;
use crate::object::Pixel;
use crate::pixelmap::PixelMap;
use crate::player::Player;
use crate::pointset::view_pt;
use crate::world::World;
use crate::world::lemma_lapse_keeps_charge;
use crate::world::lemma_lookup_unique;

verus! {

/// The player-side state: the player's entity id, the remembered pixels of
/// every level visited, and the message log.
pub struct PlayerData {
    pub player: Idx,
    pub views: Vec<(Idx, PixelMap)>,
    pub messages: Vec<String>,
    pub range_tenths: u32,
}

/// Why the turn-driving loop gave control back.
#[derive(Clone, Copy, Debug, PartialEq, Eq, Structural)]
pub enum WaitOutcome {
    /// The player's entity is the scheduled ready entity.
    Ready,
    /// The turn budget ran out before the player's turn came.
    BudgetSpent,
    /// The world clock is too close to its machine limit to advance.
    ClockLimit,
}

impl PlayerData {
    /// Remembered views are keyed by level id, each key once, and each map
    /// well formed.
    pub open spec fn wf(self) -> bool {
        &&& forall|i: int, j: int|
            0 <= i < j < self.views@.len() ==> (#[trigger] self.views@[i]).0 != (
            #[trigger] self.views@[j]).0
        &&& forall|i: int| 0 <= i < self.views@.len() ==> (#[trigger] self.views@[i]).1.wf()
        &&& self.range_tenths <= 100000
    }

    /// Player-side state for the entity with the given id, with the
    /// engine's standard perception range and nothing seen yet.
    pub fn new(idx: Idx) -> (r: PlayerData)
        ensures
            r.player == idx,
            r.views@.len() == 0,
            r.messages@.len() == 0,
            r.range_tenths == 80,
            r.wf(),
    {
        PlayerData { player: idx, views: Vec::new(), messages: Vec::new(), range_tenths: 80 }
    }

    /// The message log.
    pub fn get_messages(&self) -> (r: &Vec<String>)
        ensures
            r@ == self.messages@,
    {
        &self.messages
    }

    /// Whether the world holds the player's entity, with a player
    /// behavior.
    pub open spec fn player_ok(self, game: World) -> bool {
        match game.spec_lookup(self.player) {
            Some(e) => e.object is Player,
            None => false,
        }
    }

    /// The current scheduling cooldown of the player's entity.
    pub open spec fn player_cd(self, game: World) -> i64 {
        match game.spec_lookup(self.player) {
            Some(e) => e.object.spec_cooldown(),
            None => 0,
        }
    }

    /// The current position of the player's entity.
    pub open spec fn player_pos(self, game: World) -> IPoint {
        match game.spec_lookup(self.player) {
            Some(e) => e.position,
            None => IPoint { x: 0, y: 0 },
        }
    }

    /// The action currently stored on the player's entity.
    pub open spec fn player_action(self, game: World) -> Action {
        match game.spec_lookup(self.player) {
            Some(e) => match e.object {
                Object::Player(p) => p.action,
                _ => Action::Wait { idx: self.player },
            },
            None => Action::Wait { idx: self.player },
        }
    }

    /// Advance the world turn by turn — lapse time, let the ready entity
    /// act — until the player's own entity is the scheduled ready one, or
    /// the given turn budget runs out, or the world clock comes too close
    /// to its machine limit to advance.
    ///
    /// Other entities' turns never move the player and never touch its
    /// stored action.
    pub fn wait(&mut self, game: &mut World, fuel: u32) -> (r: Result<WaitOutcome, EngineError>)
        requires
            old(game).wf(),
            old(game).all_can_charge(),
            old(self).player_ok(*old(game)),
        ensures
            *final(self) == *old(self),
            final(game).wf(),
            final(game).all_can_charge(),
            final(self).player_ok(*final(game)),
            final(game).time >= old(game).time,
            final(self).player_pos(*final(game)) == old(self).player_pos(*old(game)),
            final(self).player_action(*final(game)) == old(self).player_action(*old(game)),
            r == Result::<WaitOutcome, EngineError>::Ok(WaitOutcome::Ready) ==> final(self).player_cd(*final(game)) == 0,
            r == Result::<WaitOutcome, EngineError>::Ok(WaitOutcome::ClockLimit) ==> final(game).time + final(self).player_cd(*final(game)) > i64::MAX,
            fuel == 0 ==> r == Result::<WaitOutcome, EngineError>::Ok(WaitOutcome::BudgetSpent)
                && *final(game) == *old(game),
    {
        let mut budget = fuel;
        loop
            invariant
                *self == *old(self),
                game.wf(),
                game.all_can_charge(),
                self.player_ok(*game),
                game.time >= old(game).time,
                self.player_pos(*game) == old(self).player_pos(*old(game)),
                self.player_action(*game) == old(self).player_action(*old(game)),
                budget == fuel ==> *game == *old(game),
                budget <= fuel,
            ensures
                *self == *old(self),
                game.wf(),
                game.all_can_charge(),
                self.player_ok(*game),
                game.time >= old(game).time,
                self.player_pos(*game) == old(self).player_pos(*old(game)),
                self.player_action(*game) == old(self).player_action(*old(game)),
            decreases budget,
        {
            if budget == 0 {
                return Ok(WaitOutcome::BudgetSpent);
            }
            budget = budget - 1;
            let pe = match game.get_entity(self.player) {
                None => {
                    proof {
                        assert(false);
                    }
                    return Err(EngineError::MissingEntity(self.player));
                },
                Some(pe) => pe,
            };
            let gc = pe.object.get_cooldown();
            if gc > i64::MAX - game.time {
                // the clock cannot advance this far; give control back
                return Ok(WaitOutcome::ClockLimit);
            }
            proof {
                let pa = choose|pa: int|
                    0 <= pa < game.levels@.len() && (#[trigger] game.levels@[pa]).contains_id(
                        self.player,
                    );
                let pi = choose|pi: int|
                    0 <= pi < game.levels@[pa].entities@.len() && (#[trigger] game.levels@[
                        pa
                    ].entities@[pi]).object.spec_idx() == self.player;
                lemma_lookup_unique(*game, self.player, pa, pi);
                assert(game.slot_ok(pa, pi) && game.time + game.spec_cd(pa, pi) <= i64::MAX);
            }
            let ghost w_pre = *game;
            let ready = game.lapse_time();
            proof {
                let v = choose|v: i64| #[trigger]
                    crate::world::lapse_outcome(w_pre, *game, v);
                lemma_lapse_keeps_charge(w_pre, *game, v);
                // the player's entity lapses with everything else
                let pa = choose|pa: int|
                    0 <= pa < w_pre.levels@.len() && (#[trigger] w_pre.levels@[pa]).contains_id(
                        self.player,
                    );
                let pi = choose|pi: int|
                    0 <= pi < w_pre.levels@[pa].entities@.len() && (#[trigger] w_pre.levels@[
                        pa
                    ].entities@[pi]).object.spec_idx() == self.player;
                lemma_lookup_unique(w_pre, self.player, pa, pi);
                assert(game.levels@[pa].entities@[pi] == (Entity {
                    object: w_pre.levels@[pa].entities@[pi].object.spec_lapse(v),
                    ..w_pre.levels@[pa].entities@[pi]
                }));
                lemma_lookup_unique(*game, self.player, pa, pi);
            }
            let id = match ready {
                None => {
                    return Err(EngineError::NoReadyEntity);
                },
                Some(id) => id,
            };
            if id == self.player {
                proof {
                    let (ra, ri) = choose|ra: int, ri: int|
                        game.slot_ok(ra, ri) && #[trigger] game.spec_cd(ra, ri) == 0 && game.levels@[
                            ra
                        ].entities@[ri].object.spec_idx() == id;
                    lemma_lookup_unique(*game, self.player, ra, ri);
                }
                return Ok(WaitOutcome::Ready);
            }
            let ghost w_mid = *game;
            let invoked = game.invoke_actions(id);
            proof {
                let (ra, ri) = choose|ra: int, ri: int|
                    w_mid.slot_ok(ra, ri) && #[trigger] w_mid.spec_cd(ra, ri) == 0 && w_mid.levels@[
                        ra
                    ].entities@[ri].object.spec_idx() == id;
                lemma_lookup_unique(w_mid, id, ra, ri);
                assert(match w_mid.spec_lookup(id) {
                    Some(e) => crate::world::self_acting(e.object, id) && e.object.spec_cooldown()
                        == 0,
                    None => false,
                }) by {
                    let obj = w_mid.levels@[ra].entities@[ri].object;
                    assert(w_mid.levels@[ra].wf());
                    assert(obj.wf());
                }
                // the player's scheduling state is untouched by another
                // entity's turn
                let pa = choose|pa: int|
                    0 <= pa < w_mid.levels@.len() && (#[trigger] w_mid.levels@[pa]).contains_id(
                        self.player,
                    );
                let pi = choose|pi: int|
                    0 <= pi < w_mid.levels@[pa].entities@.len() && (#[trigger] w_mid.levels@[
                        pa
                    ].entities@[pi]).object.spec_idx() == self.player;
                lemma_lookup_unique(w_mid, self.player, pa, pi);
                assert(game.spec_has(self.player));
                let qa = choose|qa: int|
                    0 <= qa < game.levels@.len() && (#[trigger] game.levels@[qa]).contains_id(
                        self.player,
                    );
                let qi = choose|qi: int|
                    0 <= qi < game.levels@[qa].entities@.len() && (#[trigger] game.levels@[
                        qa
                    ].entities@[qi]).object.spec_idx() == self.player;
                lemma_lookup_unique(*game, self.player, qa, qi);
                // naming the player's slot in both states instantiates
                // the preservation quantifier
                assert(w_mid.levels@[pa].entities@[pi] == w_mid.levels@[pa].entities@[pi]);
                assert(game.levels@[qa].entities@[qi] == game.levels@[qa].entities@[qi]);
            }
            match invoked {
                Err(e) => {
                    return Err(e);
                },
                Ok(_) => {},
            }
        }
    }
}

/// The single-cell move intent of an input token; unrecognized tokens
/// mean no movement.
pub open spec fn spec_dir(c: char) -> IPoint {
    if c == 'w' {
        IPoint { x: 0i32, y: -1i32 }
    } else if c == 's' {
        IPoint { x: 0i32, y: 1i32 }
    } else if c == 'a' {
        IPoint { x: -1i32, y: 0i32 }
    } else if c == 'd' {
        IPoint { x: 1i32, y: 0i32 }
    } else {
        IPoint { x: 0i32, y: 0i32 }
    }
}

/// The grid point with the given mathematical coordinates.
pub open spec fn pt_of(q: (int, int)) -> IPoint {
    IPoint { x: q.0 as i32, y: q.1 as i32 }
}

/// The remembered pixel a cell of a level renders as.
pub open spec fn mem_pix(lvl: Level, q: (int, int)) -> Pixel {
    spec_build_mem_pixel(tile_of(lvl.entities@, pt_of(q)))
}

/// The live pixel a cell of a level renders as.
pub open spec fn live_pix(lvl: Level, q: (int, int)) -> Pixel {
    spec_build_pixel(tile_of(lvl.entities@, pt_of(q)))
}

/// The visible set of a level seen from `pos` at range `tenths`.
pub open spec fn vis_of(lvl: Level, pos: IPoint, tenths: int) -> Set<(int, int)> {
    crate::visibility::spec_visibility(
        lvl.spec_trans_within(pos, tenths),
        lvl.size,
        pos,
        tenths,
    )
}

/// The remembered map stored for a level id, or `None`.
pub open spec fn view_of(views: Seq<(Idx, PixelMap)>, idx: Idx) -> Option<PixelMap> {
    if exists|k: int| 0 <= k < views.len() && (#[trigger] views[k]).0 == idx {
        Some(views[choose|k: int| 0 <= k < views.len() && (#[trigger] views[k]).0 == idx].1)
    } else {
        None
    }
}

/// With unique keys, any entry with the key is the stored map.
proof fn lemma_view_of(views: Seq<(Idx, PixelMap)>, idx: Idx, k: int)
    requires
        forall|i: int, j: int|
            0 <= i < j < views.len() ==> (#[trigger] views[i]).0 != (#[trigger] views[j]).0,
        0 <= k < views.len(),
        views[k].0 == idx,
    ensures
        view_of(views, idx) == Some(views[k].1),
{
    let k2 = choose|k2: int| 0 <= k2 < views.len() && (#[trigger] views[k2]).0 == idx;
    if k2 != k {
        assert(views[k2].0 != views[k].0);
    }
}

impl PlayerData {
    /// The position of the entry with this level id in the remembered
    /// views.
    fn find_view(&self, idx: Idx) -> (r: Option<usize>)
        ensures
            match r {
                None => forall|k: int|
                    0 <= k < self.views@.len() ==> (#[trigger] self.views@[k]).0 != idx,
                Some(k) => k < self.views@.len() && self.views@[k as int].0 == idx,
            },
    {
        let mut k: usize = 0;
        while k < self.views.len()
            invariant
                0 <= k <= self.views@.len(),
                forall|j: int| 0 <= j < k ==> (#[trigger] self.views@[j]).0 != idx,
            decreases self.views@.len() - k,
        {
            if self.views[k].0 == idx {
                return Some(k);
            }
            k = k + 1;
        }
        None
    }

    /// Refresh the remembered view of a level: every cell currently
    /// visible from the player's position is re-remembered as its
    /// desaturated environment pixel; every other remembered cell stays.
    pub fn update_memory(&mut self, level: &Level)
        requires
            old(self).wf(),
            level.wf(),
            level.contains_id(old(self).player),
        ensures
            final(self).wf(),
            final(self).player == old(self).player,
            final(self).range_tenths == old(self).range_tenths,
            final(self).messages@ == old(self).messages@,
            ({
                let pos = level.spec_position_of(old(self).player).unwrap();
                let vis = vis_of(*level, pos, old(self).range_tenths as int);
                match view_of(final(self).views@, level.idx) {
                    Some(m) => m.wf() && forall|q: (int, int)| #[trigger]
                        m.spec_get(q) == if vis.contains(q) {
                            Some(mem_pix(*level, q))
                        } else {
                            match view_of(old(self).views@, level.idx) {
                                Some(m0) => m0.spec_get(q),
                                None => None,
                            }
                        },
                    None => false,
                }
            }),
            forall|idx2: Idx|
                idx2 != level.idx ==> #[trigger] view_of(final(self).views@, idx2) == view_of(
                    old(self).views@,
                    idx2,
                ),
    {
        let pos = match level.get_position(self.player) {
            None => {
                proof {
                    assert(false);
                }
                return ;
            },
            Some(p) => p,
        };
        proof {
            let i = choose|i: int|
                0 <= i < level.entities@.len() && (#[trigger] level.entities@[i]).object.spec_idx()
                    == self.player;
            assert(inside_board(level.size, level.entities@[i].position));
        }
        let vis = level.visible_points(pos, self.range_tenths);
        let found = self.find_view(level.idx());
        let ghost views0 = self.views@;
        let mut base: PixelMap = match found {
            None => PixelMap::new(),
            Some(k) => {
                let entry = self.views.remove(k);
                entry.1
            },
        };
        let ghost base0 = base;
        proof {
            match found {
                None => {
                    assert(view_of(views0, level.idx) is None);
                },
                Some(k) => {
                    lemma_view_of(views0, level.idx, k as int);
                },
            }
            // after removal no entry for this level id remains
            assert forall|k2: int|
                0 <= k2 < self.views@.len() implies (#[trigger] self.views@[k2]).0
                != level.idx by {
                match found {
                    None => {},
                    Some(k) => {
                        let ok = if k2 < k as int {
                            k2
                        } else {
                            k2 + 1
                        };
                        assert(self.views@[k2] == views0[ok]);
                        if views0[ok].0 == level.idx {
                            if ok != k as int {
                                assert(views0[ok].0 != views0[k as int].0);
                            }
                        }
                    },
                }
            }
        }
        let mut i: usize = 0;
        while i < vis.len()
            invariant
                self.wf(),
                level.wf(),
                base.wf(),
                vis.wf(),
                0 <= i <= vis.seq().len(),
                forall|q: (int, int)| #[trigger]
                    base.spec_get(q) == if exists|j: int|
                        0 <= j < i && view_pt(vis.seq()[j]) == q {
                        Some(mem_pix(*level, q))
                    } else {
                        base0.spec_get(q)
                    },
                forall|j: int| 0 <= j < vis.seq().len() ==> vis@.contains(view_pt(#[trigger] vis.seq()[j])),
                vis@ == vis_of(*level, pos, self.range_tenths as int),
                inside_board(level.size, pos),
            decreases vis.seq().len() - i,
        {
            let p = vis.get(i);
            proof {
                assert(vis@.contains(view_pt(p)));
                assert(inside_board(level.size, p));
                assert(pt_of(view_pt(p)) == p);
            }
            let tile = match level.get_tile(p) {
                None => {
                    proof {
                        assert(false);
                    }
                    return ;
                },
                Some(t) => t,
            };
            let pix = Level::build_mem_pixel(&tile);
            let ghost base_pre = base;
            base.set(p, pix);
            proof {
                assert forall|q: (int, int)| #[trigger]
                    base.spec_get(q) == if exists|j: int|
                        0 <= j < i + 1 && view_pt(vis.seq()[j]) == q {
                        Some(mem_pix(*level, q))
                    } else {
                        base0.spec_get(q)
                    } by {
                    if q == view_pt(p) {
                        assert(view_pt(vis.seq()[i as int]) == q);
                    } else {
                        if exists|j: int| 0 <= j < i && view_pt(vis.seq()[j]) == q {
                        }
                    }
                }
            }
            i = i + 1;
        }
        let lvl_idx = level.idx();
        let ghost pre_push = self.views@;
        self.views.push((lvl_idx, base));
        proof {
            let n = pre_push.len() as int;
            assert(self.views@[n] == (lvl_idx, base));
            assert forall|x: int, y: int|
                0 <= x < y < self.views@.len() implies (#[trigger] self.views@[x]).0 != (
            #[trigger] self.views@[y]).0 by {
                if y < n {
                    assert(self.views@[x] == pre_push[x]);
                    assert(self.views@[y] == pre_push[y]);
                } else {
                    assert(self.views@[x] == pre_push[x]);
                }
            }
            lemma_view_of(self.views@, level.idx, n);
            assert forall|q: (int, int)| #[trigger]
                base.spec_get(q) == if vis_of(*level, pos, self.range_tenths as int).contains(q) {
                    Some(mem_pix(*level, q))
                } else {
                    match view_of(views0, level.idx) {
                        Some(m0) => m0.spec_get(q),
                        None => None,
                    }
                } by {
                if vis@.contains(q) {
                    let j = choose|j: int|
                        0 <= j < vis.seq().len() && view_pt(#[trigger] vis.seq()[j]) == q;
                    assert(exists|j2: int|
                        0 <= j2 < vis.seq().len() && view_pt(vis.seq()[j2]) == q);
                } else {
                    assert(!(exists|j: int|
                        0 <= j < vis.seq().len() && view_pt(#[trigger] vis.seq()[j]) == q));
                }
            }
            assert forall|idx2: Idx|
                idx2 != level.idx implies #[trigger] view_of(self.views@, idx2) == view_of(
                views0,
                idx2,
            ) by {
                if view_of(views0, idx2) is Some {
                    let k0 = choose|k0: int|
                        0 <= k0 < views0.len() && (#[trigger] views0[k0]).0 == idx2;
                    lemma_view_of(views0, idx2, k0);
                    let nk = match found {
                        None => k0,
                        Some(k) => if k0 < k as int {
                            k0
                        } else {
                            k0 - 1
                        },
                    };
                    assert(self.views@[nk] == views0[k0]);
                    lemma_view_of(self.views@, idx2, nk);
                }
                if view_of(self.views@, idx2) is Some {
                    let k1 = choose|k1: int|
                        0 <= k1 < self.views@.len() && (#[trigger] self.views@[k1]).0 == idx2;
                    lemma_view_of(self.views@, idx2, k1);
                    assert(k1 != n);
                    let ok = match found {
                        None => k1,
                        Some(k) => if k1 < k as int {
                            k1
                        } else {
                            k1 + 1
                        },
                    };
                    assert(views0[ok] == self.views@[k1]);
                    lemma_view_of(views0, idx2, ok);
                }
            }
        }
    }
}

impl PlayerData {
    /// Build what the player currently gets to see of its level: every
    /// cell visible from the player's position shows its live pixel, every
    /// cell remembered but not currently visible shows its remembered
    /// pixel, and nothing else is drawn.
    pub fn build_view(&self, game: &World) -> (r: crate::view::View)
        requires
            self.wf(),
            game.wf(),
            game.spec_has(self.player),
        ensures
            r.tiles.wf(),
            exists|a: int|
                0 <= a < game.levels@.len() && (#[trigger] game.levels@[a]).contains_id(
                    self.player,
                ) && ({
                    let lvl = game.levels@[a];
                    let pos = lvl.spec_position_of(self.player).unwrap();
                    let vis = vis_of(lvl, pos, self.range_tenths as int);
                    &&& r.size == lvl.size
                    &&& forall|q: (int, int)| #[trigger]
                        r.tiles.spec_get(q) == if vis.contains(q) {
                            Some(live_pix(lvl, q))
                        } else {
                            match view_of(self.views@, lvl.idx) {
                                Some(m) => m.spec_get(q),
                                None => None,
                            }
                        }
                }),
    {
        let li = match game.find_level_of(self.player) {
            None => {
                proof {
                    assert(false);
                }
                unreached()
            },
            Some(li) => li,
        };
        let level = &game.levels()[li];
        let pos = match level.get_position(self.player) {
            None => {
                proof {
                    assert(false);
                }
                unreached()
            },
            Some(p) => p,
        };
        proof {
            let i = choose|i: int|
                0 <= i < level.entities@.len() && (#[trigger] level.entities@[i]).object.spec_idx()
                    == self.player;
            assert(inside_board(level.size, level.entities@[i].position));
        }
        let vis = level.visible_points(pos, self.range_tenths);
        let mut tiles = PixelMap::new();
        let mut i: usize = 0;
        while i < vis.len()
            invariant
                self.wf(),
                level.wf(),
                tiles.wf(),
                vis.wf(),
                0 <= i <= vis.seq().len(),
                forall|q: (int, int)| #[trigger]
                    tiles.spec_get(q) == if exists|j: int|
                        0 <= j < i && view_pt(vis.seq()[j]) == q {
                        Some(live_pix(*level, q))
                    } else {
                        None
                    },
                forall|j: int| 0 <= j < vis.seq().len() ==> vis@.contains(view_pt(#[trigger] vis.seq()[j])),
                vis@ == vis_of(*level, pos, self.range_tenths as int),
                inside_board(level.size, pos),
            decreases vis.seq().len() - i,
        {
            let p = vis.get(i);
            proof {
                assert(vis@.contains(view_pt(p)));
                assert(inside_board(level.size, p));
                assert(pt_of(view_pt(p)) == p);
            }
            let tile = match level.get_tile(p) {
                None => {
                    proof {
                        assert(false);
                    }
                    unreached()
                },
                Some(t) => t,
            };
            let pix = Level::build_pixel(&tile);
            tiles.set(p, pix);
            proof {
                assert forall|q: (int, int)| #[trigger]
                    tiles.spec_get(q) == if exists|j: int|
                        0 <= j < i + 1 && view_pt(vis.seq()[j]) == q {
                        Some(live_pix(*level, q))
                    } else {
                        None
                    } by {
                    if q == view_pt(p) {
                        assert(view_pt(vis.seq()[i as int]) == q);
                    }
                }
            }
            i = i + 1;
        }
        proof {
            assert forall|q: (int, int)| #[trigger]
                tiles.spec_get(q) == if vis@.contains(q) {
                    Some(live_pix(*level, q))
                } else {
                    None
                } by {
                if vis@.contains(q) {
                    let j = choose|j: int|
                        0 <= j < vis.seq().len() && view_pt(#[trigger] vis.seq()[j]) == q;
                    assert(exists|j2: int|
                        0 <= j2 < vis.seq().len() && view_pt(vis.seq()[j2]) == q);
                } else {
                    assert(!(exists|j: int|
                        0 <= j < vis.seq().len() && view_pt(#[trigger] vis.seq()[j]) == q));
                }
            }
        }
        let ghost tiles_live = tiles;
        match self.find_view(level.idx()) {
            None => {
                proof {
                    assert(view_of(self.views@, level.idx) is None);
                }
            },
            Some(k) => {
                proof {
                    lemma_view_of(self.views@, level.idx, k as int);
                }
                let mem = &self.views[k].1;
                let mut j: usize = 0;
                while j < mem.len()
                    invariant
                        self.wf(),
                        level.wf(),
                        tiles.wf(),
                        mem.wf(),
                        *mem == self.views@[k as int].1,
                        k < self.views@.len(),
                        0 <= j <= mem.items@.len(),
                        forall|q: (int, int)| #[trigger]
                            tiles.spec_get(q) == if tiles_live.spec_get(q) is Some {
                                tiles_live.spec_get(q)
                            } else if exists|j2: int|
                                0 <= j2 < j && view_pt((#[trigger] mem.items@[j2]).0) == q {
                                mem.spec_get(q)
                            } else {
                                None
                            },
                    decreases mem.items@.len() - j,
                {
                    let entry = mem.get_at(j);
                    tiles.merge_missing(entry.0, entry.1);
                    proof {
                        crate::pixelmap::lemma_pixelmap_at(*mem, j as int);
                        assert forall|q: (int, int)| #[trigger]
                            tiles.spec_get(q) == if tiles_live.spec_get(q) is Some {
                                tiles_live.spec_get(q)
                            } else if exists|j2: int|
                                0 <= j2 < j + 1 && view_pt((#[trigger] mem.items@[j2]).0) == q {
                                mem.spec_get(q)
                            } else {
                                None
                            } by {
                            if q == view_pt(entry.0) {
                                assert(view_pt(mem.items@[j as int].0) == q);
                                assert(mem.spec_get(q) == Some(entry.1));
                            }
                        }
                    }
                    j = j + 1;
                }
                proof {
                    assert forall|q: (int, int)| #[trigger]
                        tiles.spec_get(q) == if tiles_live.spec_get(q) is Some {
                            tiles_live.spec_get(q)
                        } else {
                            mem.spec_get(q)
                        } by {
                        if mem.spec_get(q) is Some {
                            let j2 = choose|j2: int|
                                0 <= j2 < mem.items@.len() && view_pt(
                                    (#[trigger] mem.items@[j2]).0,
                                ) == q;
                            assert(exists|j3: int|
                                0 <= j3 < mem.items@.len() && view_pt(mem.items@[j3].0) == q);
                        } else {
                            if exists|j2: int|
                                0 <= j2 < mem.items@.len() && view_pt(
                                    (#[trigger] mem.items@[j2]).0,
                                ) == q {
                                let j2 = choose|j2: int|
                                    0 <= j2 < mem.items@.len() && view_pt(
                                        (#[trigger] mem.items@[j2]).0,
                                    ) == q;
                                crate::pixelmap::lemma_pixelmap_at(*mem, j2);
                            }
                        }
                    }
                }
            },
        }
        let size = level.size();
        crate::view::View { tiles, size }
    }

    /// Translate one input token into the player's next turn. The tokens
    /// `w`, `s`, `a` and `d` each mean a single-cell move intent; any
    /// other token is ignored and changes nothing. For a recognized token
    /// the driver advances the world to the player's turn, stores the move
    /// as the player's action, lets the player act, advances the world to
    /// the player's next turn again, and refreshes the remembered view.
    ///
    /// `Ok(true)` reports a completed turn: the stored action is the walk
    /// by the token's direction from the ready-time position, the player
    /// either made exactly that step or stood still on a blocked cell, and
    /// the remembered view of its level was refreshed. `Ok(false)` reports
    /// an ignored token or an exhausted turn budget, with the player-side
    /// state untouched.
    pub fn process_key(&mut self, game: &mut World, string: &str) -> (r: Result<
        bool,
        EngineError,
    >)
        requires
            old(self).wf(),
            old(game).wf(),
            old(game).all_can_charge(),
            old(self).player_ok(*old(game)),
        ensures
            final(self).wf(),
            final(game).wf(),
            final(game).all_can_charge(),
            final(self).player == old(self).player,
            final(self).range_tenths == old(self).range_tenths,
            final(self).messages@ == old(self).messages@,
            final(game).time >= old(game).time,
            (string@.len() != 1 || (string@[0] != 'w' && string@[0] != 's' && string@[0] != 'a'
                && string@[0] != 'd')) ==> *final(game) == *old(game) && *final(self) == *old(self) && r == Result::<bool, EngineError>::Ok(false),
            r is Ok ==> final(self).player_ok(*final(game)),
            r == Result::<bool, EngineError>::Ok(false) ==> *final(self) == *old(self) && final(self).player_pos(*final(game)) == old(self).player_pos(*old(game)) && final(self).player_action(*final(game)) == old(self).player_action(*old(game)),
            r == Result::<bool, EngineError>::Ok(true) ==> ({
                let p0 = old(self).player_pos(*old(game));
                let d = spec_dir(string@[0]);
                let tgt = IPoint { x: (p0.x + d.x) as i32, y: (p0.y + d.y) as i32 };
                &&& string@.len() == 1
                &&& (string@[0] == 'w' || string@[0] == 's' || string@[0] == 'a' || string@[0]
                    == 'd')
                &&& final(self).player_action(*final(game)) == (Action::Walk {
                    idx: old(self).player,
                    position: tgt,
                })
                &&& (final(self).player_pos(*final(game)) == p0 || final(self).player_pos(
                    *final(game),
                ) == tgt)
                &&& exists|a: int|
                    0 <= a < final(game).levels@.len() && (#[trigger] final(game).levels@[
                        a
                    ]).contains_id(old(self).player) && ({
                        let lvl = final(game).levels@[a];
                        let pos = lvl.spec_position_of(old(self).player).unwrap();
                        let vis = vis_of(lvl, pos, old(self).range_tenths as int);
                        &&& (match view_of(final(self).views@, lvl.idx) {
                            Some(m) => m.wf() && forall|q: (int, int)| #[trigger]
                                m.spec_get(q) == if vis.contains(q) {
                                    Some(mem_pix(lvl, q))
                                } else {
                                    match view_of(old(self).views@, lvl.idx) {
                                        Some(m0) => m0.spec_get(q),
                                        None => None,
                                    }
                                },
                            None => false,
                        })
                        &&& forall|idx2: Idx|
                            idx2 != lvl.idx ==> #[trigger] view_of(final(self).views@, idx2)
                                == view_of(old(self).views@, idx2)
                    })
            }),
    {
        if string.unicode_len() != 1 {
            return Ok(false);
        }
        let c = string.get_char(0);
        let dir: IPoint = match c {
            'w' => IPoint { x: 0, y: -1 },
            's' => IPoint { x: 0, y: 1 },
            'a' => IPoint { x: -1, y: 0 },
            'd' => IPoint { x: 1, y: 0 },
            _ => {
                return Ok(false);
            },
        };
        proof {
            assert(dir == spec_dir(string@[0]));
        }
        match self.wait(game, TURN_BUDGET) {
            Err(e) => {
                return Err(e);
            },
            Ok(WaitOutcome::Ready) => {},
            Ok(_) => {
                return Ok(false);
            },
        }
        let pe = match game.get_entity(self.player) {
            None => {
                proof {
                    assert(false);
                }
                return Err(EngineError::MissingEntity(self.player));
            },
            Some(pe) => pe,
        };
        let position = pe.position;
        proof {
            let pa = choose|pa: int|
                0 <= pa < game.levels@.len() && (#[trigger] game.levels@[pa]).contains_id(
                    self.player,
                );
            let pi = choose|pi: int|
                0 <= pi < game.levels@[pa].entities@.len() && (#[trigger] game.levels@[
                    pa
                ].entities@[pi]).object.spec_idx() == self.player;
            lemma_lookup_unique(*game, self.player, pa, pi);
            assert(inside_board(game.levels@[pa].size, position));
        }
        let target = IPoint { x: position.x + dir.x, y: position.y + dir.y };
        let ghost w_set_pre = *game;
        let did = game.set_player_action(
            self.player,
            Action::Walk { idx: self.player, position: target },
        );
        proof {
            assert(did);
        }
        proof {
            // the stored action now walks the player itself, and the
            // player is still the ready entity
            let pa = choose|pa: int|
                0 <= pa < w_set_pre.levels@.len() && (#[trigger] w_set_pre.levels@[
                    pa
                ]).contains_id(self.player);
            let pi = choose|pi: int|
                0 <= pi < w_set_pre.levels@[pa].entities@.len() && (#[trigger] w_set_pre.levels@[
                    pa
                ].entities@[pi]).object.spec_idx() == self.player;
            lemma_lookup_unique(w_set_pre, self.player, pa, pi);
            lemma_lookup_unique(*game, self.player, pa, pi);
            assert(self.player_action(*game) == (Action::Walk {
                idx: self.player,
                position: target,
            }));
        }
        let ghost w_inv_pre = *game;
        proof {
            assert(match w_inv_pre.spec_lookup(self.player) {
                Some(e) => crate::world::self_acting(e.object, self.player)
                    && e.object.spec_cooldown() == 0,
                None => false,
            });
        }
        match game.invoke_actions(self.player) {
            Err(e) => {
                return Err(e);
            },
            Ok(_) => {},
        }
        proof {
            // the player's own turn either made exactly the requested step
            // or was silently dropped on a blocked destination; either way
            // the stored action is untouched
            assert(crate::world::player_turn_effect(w_inv_pre, *game, self.player));
            assert(self.player_pos(*game) == position || self.player_pos(*game) == target);
            assert(self.player_action(*game) == (Action::Walk {
                idx: self.player,
                position: target,
            }));
        }
        match game.get_entity(self.player) {
            None => {
                return Err(EngineError::MissingEntity(self.player));
            },
            Some(e2) => {
                match e2.object {
                    Object::Player(_) => {},
                    _ => {
                        return Err(EngineError::MissingEntity(self.player));
                    },
                }
            },
        }
        match self.wait(game, TURN_BUDGET) {
            Err(e) => {
                return Err(e);
            },
            Ok(_) => {},
        }
        let li = match game.find_level_of(self.player) {
            None => {
                proof {
                    assert(false);
                }
                return Err(EngineError::MissingEntity(self.player));
            },
            Some(li) => li,
        };
        let level = &game.levels()[li];
        proof {
            assert(game.levels@[li as int] == *level);
        }
        self.update_memory(level);
        Ok(true)
    }
}

/// How many scheduling turns one input is allowed to drive before control
/// returns to the caller.
pub const TURN_BUDGET: u32 = 100000;

} // verus!
