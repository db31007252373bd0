//! The world: all levels, the id source, the random stream and the clock,
//! and the cooldown-driven scheduler that drives them.

use vstd::prelude::*;
use crate::context::Action;
use crate::context::Effects;
use crate::errors::EngineError;
use crate::ipoint::IPoint;
use crate::level::Entity;
use crate::level::Level;
use crate::level::inside_board;
use crate::level::spec_tile_blocking;
use crate::level::tile_of;
use crate::object::Idx;
use crate::object::Object;
use crate::player::Player;
use crate::rng::rng_from_seed;
use crate::rng::rng_next_u32;

verus! {

/// The behavior of an entity after an executed attack touches it: first
/// as the attack's target, then as its source (an entity attacking itself
/// is touched twice).
pub open spec fn spec_attack_touch(o: Object, action: Action, source: Idx, target: Idx) -> Object {
    let o1 = if o.spec_idx() == target {
        o.spec_execute(action)
    } else {
        o
    };
    if o1.spec_idx() == source {
        o1.spec_execute(action)
    } else {
        o1
    }
}

/// Whether walking onto `dest` in this level is refused: the destination
/// is off the board or some occupant blocks movement.
pub open spec fn spec_walk_blocked(lvl: Level, dest: IPoint) -> bool {
    !inside_board(lvl.size, dest) || spec_tile_blocking(tile_of(lvl.entities@, dest))
}

/// Room for a whole action gives room for each single charge of it.
proof fn lemma_can_charge_room(w: World, id: Idx, action: Action)
    requires
        w.wf(),
        w.all_can_charge(),
    ensures
        forall|a: int, i: int|
            w.slot_ok(a, i) && (#[trigger] w.levels@[a].entities@[i]).object.spec_idx() == id
                ==> w.levels@[a].entities@[i].object.charge_room_for(action),
{
    assert forall|a: int, i: int|
        w.slot_ok(a, i) && (#[trigger] w.levels@[a].entities@[i]).object.spec_idx()
            == id implies w.levels@[a].entities@[i].object.charge_room_for(action) by {
        assert(w.levels@[a].entities@[i].object.can_charge());
        assert(w.levels@[a].wf());
        assert(w.levels@[a].entities@[i].object.wf());
    }
}

/// Whether every action a behavior can currently put on the queue acts
/// through the entity `id` itself: a character's policy always does, and a
/// player does when its stored action names itself as actor and source.
pub open spec fn self_acting(o: Object, id: Idx) -> bool {
    match o {
        Object::Player(p) => match p.action {
            Action::Attack { source, .. } => source == id,
            Action::Walk { idx, .. } => idx == id,
            Action::Wait { idx } => idx == id,
        },
        _ => true,
    }
}

/// Whether every entity id the invoked entity's planned action can name
/// exists in the world: a character attacks its remembered hostile only at
/// Manhattan distance at most one, and a player performs its stored
/// action. (Walks and waits name only the actor itself.)
pub open spec fn plan_targets_exist(w: World, id: Idx) -> bool {
    match w.spec_lookup(id) {
        Some(e) => match e.object {
            Object::Character(c) => match c.last_enemy {
                Some((eid, epos)) => epos.spec_rdist(e.position) <= 1 ==> w.spec_has(eid),
                None => true,
            },
            Object::Player(p) => match p.action {
                Action::Attack { source, target } => w.spec_has(source) && w.spec_has(target),
                Action::Walk { idx, .. } => w.spec_has(idx),
                Action::Wait { idx } => w.spec_has(idx),
            },
            _ => true,
        },
        None => true,
    }
}

/// What one perception step does to one entity: the sighting `s` is
/// remembered (characters only), and the sighting is truthful against the
/// level as the pass found it.
pub open spec fn sighting_step(e0: Entity, e1: Entity, lvl0: Level, s: Option<(Idx, IPoint)>) -> bool {
    &&& e1 == (Entity { object: e0.object.spec_apply_sighting(s), ..e0 })
    &&& match e0.object {
        Object::Character(c) => crate::character::sighting_matches(c, lvl0, e0.position, s),
        _ => s is None,
    }
}

/// What a player entity's own turn does to it, exactly, when its stored
/// action is a walk: onto a blocked or off-board cell nothing changes;
/// onto a free cell the player stands at the destination with its walk
/// speed charged onto its cooldown. (Other stored actions are not pinned
/// here.)
pub open spec fn player_turn_effect(w0: World, w1: World, id: Idx) -> bool {
    match w0.spec_lookup(id) {
        Some(e) => match e.object {
            Object::Player(p) => match p.action {
                Action::Walk { idx: _, position } => exists|a: int|
                    0 <= a < w0.levels@.len() && (#[trigger] w0.levels@[a]).contains_id(id) && (
                    if spec_walk_blocked(w0.levels@[a], position) {
                        w1.spec_lookup(id) == w0.spec_lookup(id)
                    } else {
                        match w1.spec_lookup(id) {
                            Some(f) => f.position == position && f.object == Object::Player(
                                Player { cooldown: (p.cooldown + p.walk_speed) as i64, ..p },
                            ),
                            None => false,
                        }
                    }),
                _ => true,
            },
            _ => true,
        },
        None => true,
    }
}

/// What the invoked entity's own turn does to it, exactly, up to the plan
/// the dice allowed and the sighting its perception then made: some action
/// `a` its planning policy admits was executed against its counters — a
/// wait charges wait speed, an attack charges attack speed on the source
/// and one health on the target, a free walk moves it and charges walk
/// speed, a blocked walk changes nothing — a forgotten hostile is cleared,
/// and one perception step is applied on top.
pub open spec fn actor_turn_step(
    w0: World,
    w1: World,
    id: Idx,
    e: Entity,
    li: int,
    a: Action,
    forget: bool,
    s: Option<(Idx, IPoint)>,
) -> bool {
    &&& 0 <= li < w0.levels@.len()
    &&& w0.levels@[li].contains_id(id)
    &&& e.object.spec_plan_pushes(w0.levels@[li], e.position, a, forget)
    &&& ({
        let o1 = if forget {
            e.object.spec_forget()
        } else {
            e.object
        };
        match a {
            Action::Wait { .. } => w1.spec_lookup(id) == Some(
                Entity { object: o1.spec_execute(a).spec_apply_sighting(s), ..e },
            ),
            Action::Attack { source, target } => w1.spec_lookup(id) == Some(
                Entity {
                    object: spec_attack_touch(o1, a, source, target).spec_apply_sighting(s),
                    ..e
                },
            ),
            Action::Walk { idx: _, position: dest } => if spec_walk_blocked(
                w0.levels@[li],
                dest,
            ) {
                w1.spec_lookup(id) == Some(Entity { object: o1.spec_apply_sighting(s), ..e })
            } else {
                w1.spec_lookup(id) == Some(
                    Entity {
                        object: o1.spec_execute(a).spec_apply_sighting(s),
                        level: e.level,
                        position: dest,
                    },
                )
            },
        }
    })
}

pub open spec fn actor_turn_effect(w0: World, w1: World, id: Idx) -> bool {
    match w0.spec_lookup(id) {
        Some(e) => exists|li: int, a: Action, forget: bool, s: Option<(Idx, IPoint)>| #[trigger] actor_turn_step(
            w0,
            w1,
            id,
            e,
            li,
            a,
            forget,
            s,
        ),
        None => true,
    }
}

/// Chains a player's own executed walk through the perception pass: with
/// the stored walk executed between `wb` and `we`, and one sighting step
/// between `we` and `wp`, the player's turn had exactly its stated effect.
proof fn lemma_player_walk_effect(
    w0: World,
    wb: World,
    we: World,
    wp: World,
    id: Idx,
    action: Action,
)
    requires
        w0.wf(),
        wb.wf(),
        we.wf(),
        wp.wf(),
        w0.spec_has(id),
        wb.levels == w0.levels,
        match w0.spec_lookup(id) {
            Some(e) => match e.object {
                Object::Player(p) => action == p.action,
                _ => true,
            },
            None => false,
        },
        match action {
            Action::Walk { idx, position } => idx == id ==> exists|a: int|
                0 <= a < wb.levels@.len() && (#[trigger] wb.levels@[a]).contains_id(idx) && if spec_walk_blocked(
                    wb.levels@[a],
                    position,
                ) {
                    we == wb
                } else {
                    (forall|b: int|
                        0 <= b < wb.levels@.len() && b != a ==> #[trigger] we.levels@[b]
                            == wb.levels@[b]) && exists|i: int|
                        0 <= i < wb.levels@[a].entities@.len() && (#[trigger] wb.levels@[
                            a
                        ].entities@[i]).object.spec_idx() == idx && we.levels@[a].entities@
                            == wb.levels@[a].entities@.remove(i).push(
                            Entity {
                                object: wb.levels@[a].entities@[i].object.spec_execute(action),
                                level: wb.levels@[a].idx,
                                position,
                            },
                        )
                },
            _ => true,
        },
        we.levels@.len() == wb.levels@.len(),
        wp.levels@.len() == we.levels@.len(),
        forall|a: int|
            0 <= a < we.levels@.len() ==> (#[trigger] wp.levels@[a].entities@).len() == we.levels@[
                a
            ].entities@.len(),
        forall|a: int, i: int|
            we.slot_ok(a, i) ==> exists|s: Option<(Idx, IPoint)>| #[trigger] sighting_step(
                we.levels@[a].entities@[i],
                wp.levels@[a].entities@[i],
                we.levels@[a],
                s,
            ),
    ensures
        player_turn_effect(w0, wp, id),
{
    let e0 = w0.spec_lookup(id).unwrap();
    let pa = choose|pa: int|
        0 <= pa < w0.levels@.len() && (#[trigger] w0.levels@[pa]).contains_id(id);
    let pi = choose|pi: int|
        0 <= pi < w0.levels@[pa].entities@.len() && (#[trigger] w0.levels@[pa].entities@[
            pi
        ]).object.spec_idx() == id;
    lemma_lookup_unique(w0, id, pa, pi);
    match e0.object {
        Object::Player(p) => {
            assert(e0.object.wf()) by {
                assert(w0.levels@[pa].wf());
            }
            match p.action {
                Action::Walk { idx: widx, position: dest } => {
                    assert(action == p.action);
                    assert(widx == p.idx && p.idx == id);
                    let a = choose|a: int|
                        0 <= a < wb.levels@.len() && (#[trigger] wb.levels@[a]).contains_id(widx)
                            && if spec_walk_blocked(wb.levels@[a], dest) {
                            we == wb
                        } else {
                            (forall|b: int|
                                0 <= b < wb.levels@.len() && b != a ==> #[trigger] we.levels@[b]
                                    == wb.levels@[b]) && exists|i: int|
                                0 <= i < wb.levels@[a].entities@.len() && (#[trigger] wb.levels@[
                                    a
                                ].entities@[i]).object.spec_idx() == widx && we.levels@[
                                    a
                                ].entities@ == wb.levels@[a].entities@.remove(i).push(
                                    Entity {
                                        object: wb.levels@[a].entities@[i].object.spec_execute(
                                            action,
                                        ),
                                        level: wb.levels@[a].idx,
                                        position: dest,
                                    },
                                )
                        };
                    assert(wb.levels@ == w0.levels@);
                    if a != pa {
                        assert(w0.levels@[a].contains_id(id));
                        assert(false);
                    }
                    if spec_walk_blocked(wb.levels@[pa], dest) {
                        // nothing moved: the entity is carried unchanged
                        // through the perception pass
                        assert(we.levels@ == w0.levels@);
                        assert(we.slot_ok(pa, pi));
                        let s = choose|s: Option<(Idx, IPoint)>| #[trigger] sighting_step(
                            we.levels@[pa].entities@[pi],
                            wp.levels@[pa].entities@[pi],
                            we.levels@[pa],
                            s,
                        );
                        assert(we.levels@[pa].entities@[pi] == e0);
                        assert(wp.levels@[pa].entities@[pi] == e0);
                        lemma_lookup_unique(wp, id, pa, pi);
                        assert(wp.spec_lookup(id) == w0.spec_lookup(id));
                        assert(player_turn_effect(w0, wp, id));
                    } else {
                        let i0 = choose|i: int|
                            0 <= i < wb.levels@[pa].entities@.len() && (#[trigger] wb.levels@[
                                pa
                            ].entities@[i]).object.spec_idx() == widx && we.levels@[pa].entities@
                                == wb.levels@[pa].entities@.remove(i).push(
                                Entity {
                                    object: wb.levels@[pa].entities@[i].object.spec_execute(
                                        action,
                                    ),
                                    level: wb.levels@[pa].idx,
                                    position: dest,
                                },
                            );
                        if i0 != pi {
                            assert(w0.levels@[pa].entities@[i0].object.spec_idx() != w0.levels@[
                                pa
                            ].entities@[pi].object.spec_idx());
                            assert(false);
                        }
                        let moved = Entity {
                            object: Object::Player(
                                Player { cooldown: (p.cooldown + p.walk_speed) as i64, ..p },
                            ),
                            level: wb.levels@[pa].idx,
                            position: dest,
                        };
                        assert(wb.levels@[pa].entities@[pi].object == Object::Player(p));
                        assert(wb.levels@[pa].entities@[pi].object.spec_execute(action)
                            == moved.object);
                        let n = wb.levels@[pa].entities@.len() - 1;
                        assert(we.levels@[pa].entities@[n] == moved);
                        assert(we.slot_ok(pa, n));
                        let s = choose|s: Option<(Idx, IPoint)>| #[trigger] sighting_step(
                            we.levels@[pa].entities@[n],
                            wp.levels@[pa].entities@[n],
                            we.levels@[pa],
                            s,
                        );
                        assert(wp.levels@[pa].entities@[n] == moved);
                        lemma_lookup_unique(wp, id, pa, n);
                        assert(wp.spec_lookup(id) == Some(moved));
                        assert(player_turn_effect(w0, wp, id));
                    }
                },
                _ => {
                    assert(player_turn_effect(w0, wp, id));
                },
            }
        },
        _ => {
            assert(player_turn_effect(w0, wp, id));
        },
    }
}

/// Chains an invoked entity's planned action — forget step, execution,
/// perception step — into `actor_turn_effect`.
proof fn lemma_actor_effect(
    w0: World,
    wpl: World,
    we: World,
    wp: World,
    id: Idx,
    action: Action,
    forget: bool,
    gli: int,
    gei: int,
)
    requires
        w0.wf(),
        wpl.wf(),
        we.wf(),
        wp.wf(),
        0 <= gli < w0.levels@.len(),
        0 <= gei < w0.levels@[gli].entities@.len(),
        w0.levels@[gli].entities@[gei].object.spec_idx() == id,
        w0.levels@[gli].entities@[gei].object.spec_plan_pushes(
            w0.levels@[gli],
            w0.levels@[gli].entities@[gei].position,
            action,
            forget,
        ),
        forget ==> wpl.levels@.len() == w0.levels@.len() && (forall|b: int|
            0 <= b < w0.levels@.len() && b != gli ==> #[trigger] wpl.levels@[b] == w0.levels@[b])
            && wpl.levels@[gli].idx == w0.levels@[gli].idx && wpl.levels@[gli].size == w0.levels@[
            gli
        ].size && wpl.levels@[gli].entities@ == w0.levels@[gli].entities@.update(
            gei,
            Entity {
                object: w0.levels@[gli].entities@[gei].object.spec_forget(),
                ..w0.levels@[gli].entities@[gei]
            },
        ),
        !forget ==> wpl.levels == w0.levels,
        match action {
            Action::Wait { idx } => idx == id ==> forall|a2: int, i2: int|
                wpl.slot_ok(a2, i2) ==> #[trigger] we.levels@[a2].entities@[i2] == ({
                    let e2 = wpl.levels@[a2].entities@[i2];
                    if e2.object.spec_idx() == idx {
                        Entity { object: e2.object.spec_execute(action), ..e2 }
                    } else {
                        e2
                    }
                }),
            Action::Attack { source, target } => source == id ==> forall|a2: int, i2: int|
                wpl.slot_ok(a2, i2) ==> #[trigger] we.levels@[a2].entities@[i2] == ({
                    let e2 = wpl.levels@[a2].entities@[i2];
                    Entity { object: spec_attack_touch(e2.object, action, source, target), ..e2 }
                }),
            Action::Walk { idx, position } => idx == id ==> exists|a2: int|
                0 <= a2 < wpl.levels@.len() && (#[trigger] wpl.levels@[a2]).contains_id(idx)
                    && if spec_walk_blocked(wpl.levels@[a2], position) {
                    we == wpl
                } else {
                    (forall|b: int|
                        0 <= b < wpl.levels@.len() && b != a2 ==> #[trigger] we.levels@[b]
                            == wpl.levels@[b]) && exists|i2: int|
                        0 <= i2 < wpl.levels@[a2].entities@.len() && (#[trigger] wpl.levels@[
                            a2
                        ].entities@[i2]).object.spec_idx() == idx && we.levels@[a2].entities@
                            == wpl.levels@[a2].entities@.remove(i2).push(
                            Entity {
                                object: wpl.levels@[a2].entities@[i2].object.spec_execute(action),
                                level: wpl.levels@[a2].idx,
                                position,
                            },
                        )
                },
        },
        we.levels@.len() == wpl.levels@.len(),
        forall|a2: int|
            0 <= a2 < wpl.levels@.len() ==> (#[trigger] we.levels@[a2].entities@).len()
                == wpl.levels@[a2].entities@.len(),
        wp.levels@.len() == we.levels@.len(),
        forall|a2: int|
            0 <= a2 < we.levels@.len() ==> (#[trigger] wp.levels@[a2].entities@).len()
                == we.levels@[a2].entities@.len(),
        forall|a2: int, i2: int|
            we.slot_ok(a2, i2) ==> exists|s: Option<(Idx, IPoint)>| #[trigger] sighting_step(
                we.levels@[a2].entities@[i2],
                wp.levels@[a2].entities@[i2],
                we.levels@[a2],
                s,
            ),
    ensures
        actor_turn_effect(w0, wp, id),
{
    let e0ent = w0.levels@[gli].entities@[gei];
    let e0 = e0ent.object;
    lemma_lookup_unique(w0, id, gli, gei);
    assert(e0.wf()) by {
        assert(w0.levels@[gli].wf());
    }
    let o1 = if forget {
        e0.spec_forget()
    } else {
        e0
    };
    assert(o1.spec_idx() == id);
    assert(wpl.levels@[gli].entities@[gei] == Entity { object: o1, ..e0ent }) by {
        if !forget {
            assert(wpl.levels@[gli] == w0.levels@[gli]);
            assert(e0ent == Entity { object: e0, ..e0ent });
        }
    }
    // the planned action acts through the planner itself
    assert(match action {
        Action::Wait { idx } => idx == id,
        Action::Attack { source, .. } => source == id,
        Action::Walk { idx, .. } => idx == id && !forget,
    });
    match action {
        Action::Wait { .. } => {
            assert(we.slot_ok(gli, gei));
            assert(we.levels@[gli].entities@[gei] == Entity {
                object: o1.spec_execute(action),
                ..e0ent
            });
            let s = choose|s: Option<(Idx, IPoint)>| #[trigger] sighting_step(
                we.levels@[gli].entities@[gei],
                wp.levels@[gli].entities@[gei],
                we.levels@[gli],
                s,
            );
            assert(wp.levels@[gli].entities@[gei] == Entity {
                object: o1.spec_execute(action).spec_apply_sighting(s),
                ..e0ent
            });
            lemma_lookup_unique(wp, id, gli, gei);
            assert(w0.levels@[gli].contains_id(id));
            assert(actor_turn_step(w0, wp, id, e0ent, gli, action, forget, s));
        },
        Action::Attack { source, target } => {
            assert(we.slot_ok(gli, gei));
            assert(we.levels@[gli].entities@[gei] == Entity {
                object: spec_attack_touch(o1, action, source, target),
                ..e0ent
            });
            let s = choose|s: Option<(Idx, IPoint)>| #[trigger] sighting_step(
                we.levels@[gli].entities@[gei],
                wp.levels@[gli].entities@[gei],
                we.levels@[gli],
                s,
            );
            assert(wp.levels@[gli].entities@[gei] == Entity {
                object: spec_attack_touch(o1, action, source, target).spec_apply_sighting(s),
                ..e0ent
            });
            lemma_lookup_unique(wp, id, gli, gei);
            assert(w0.levels@[gli].contains_id(id));
            assert(actor_turn_step(w0, wp, id, e0ent, gli, action, forget, s));
        },
        Action::Walk { idx: widx, position: dest } => {
            assert(wpl.levels == w0.levels);
            let a2 = choose|a2: int|
                0 <= a2 < wpl.levels@.len() && (#[trigger] wpl.levels@[a2]).contains_id(widx)
                    && if spec_walk_blocked(wpl.levels@[a2], dest) {
                    we == wpl
                } else {
                    (forall|b: int|
                        0 <= b < wpl.levels@.len() && b != a2 ==> #[trigger] we.levels@[b]
                            == wpl.levels@[b]) && exists|i2: int|
                        0 <= i2 < wpl.levels@[a2].entities@.len() && (#[trigger] wpl.levels@[
                            a2
                        ].entities@[i2]).object.spec_idx() == widx && we.levels@[a2].entities@
                            == wpl.levels@[a2].entities@.remove(i2).push(
                            Entity {
                                object: wpl.levels@[a2].entities@[i2].object.spec_execute(action),
                                level: wpl.levels@[a2].idx,
                                position: dest,
                            },
                        )
                };
            if a2 != gli {
                assert(w0.levels@[a2].contains_id(id));
                assert(w0.levels@[gli].contains_id(id));
                assert(false);
            }
            if spec_walk_blocked(w0.levels@[gli], dest) {
                assert(we.levels@ == w0.levels@);
                assert(we.slot_ok(gli, gei));
                let s = choose|s: Option<(Idx, IPoint)>| #[trigger] sighting_step(
                    we.levels@[gli].entities@[gei],
                    wp.levels@[gli].entities@[gei],
                    we.levels@[gli],
                    s,
                );
                assert(we.levels@[gli].entities@[gei] == e0ent);
                assert(wp.levels@[gli].entities@[gei] == Entity {
                    object: o1.spec_apply_sighting(s),
                    ..e0ent
                });
                lemma_lookup_unique(wp, id, gli, gei);
                assert(w0.levels@[gli].contains_id(id));
                assert(actor_turn_step(w0, wp, id, e0ent, gli, action, forget, s));
            } else {
                let i2 = choose|i2: int|
                    0 <= i2 < wpl.levels@[gli].entities@.len() && (#[trigger] wpl.levels@[
                        gli
                    ].entities@[i2]).object.spec_idx() == widx && we.levels@[gli].entities@
                        == wpl.levels@[gli].entities@.remove(i2).push(
                        Entity {
                            object: wpl.levels@[gli].entities@[i2].object.spec_execute(action),
                            level: wpl.levels@[gli].idx,
                            position: dest,
                        },
                    );
                if i2 != gei {
                    assert(w0.levels@[gli].entities@[i2].object.spec_idx() != w0.levels@[
                        gli
                    ].entities@[gei].object.spec_idx());
                    assert(false);
                }
                let moved = Entity {
                    object: o1.spec_execute(action),
                    level: w0.levels@[gli].idx,
                    position: dest,
                };
                let n = w0.levels@[gli].entities@.len() - 1;
                assert(we.levels@[gli].entities@[n] == moved);
                assert(we.slot_ok(gli, n));
                let s = choose|s: Option<(Idx, IPoint)>| #[trigger] sighting_step(
                    we.levels@[gli].entities@[n],
                    wp.levels@[gli].entities@[n],
                    we.levels@[gli],
                    s,
                );
                assert(wp.levels@[gli].entities@[n] == Entity {
                    object: o1.spec_execute(action).spec_apply_sighting(s),
                    ..moved
                });
                assert(wp.levels@[gli].entities@[n].object.spec_idx() == id) by {
                    assert(o1.spec_execute(action).spec_idx() == id);
                }
                lemma_lookup_unique(wp, id, gli, n);
                assert(w0.levels@[gli].contains_id(id));
                assert(actor_turn_step(w0, wp, id, e0ent, gli, action, forget, s));
            }
        },
    }
}

/// Player entities other than `except` keep their position and their whole
/// scheduling state (cooldown, wait time, stored action, stats) from `w0`
/// to `w1`; only their health may differ.
pub open spec fn player_pres(w0: World, w1: World, except: Idx) -> bool {
    forall|a: int, i: int, b: int, j: int|
        #![trigger w0.levels@[a].entities@[i], w1.levels@[b].entities@[j]]
        w0.slot_ok(a, i) && w1.slot_ok(b, j) ==> match w0.levels@[a].entities@[i].object {
            Object::Player(p) => (p.idx != except && w1.levels@[b].entities@[j].object.spec_idx()
                == p.idx) ==> (w1.levels@[b].entities@[j].position == w0.levels@[
                a
            ].entities@[i].position && w1.levels@[b].entities@[j].level == w0.levels@[
                a
            ].entities@[i].level && match w1.levels@[b].entities@[j].object {
                Object::Player(q) => q.idx == p.idx && q.cooldown == p.cooldown && q.wait_time
                    == p.wait_time && q.action == p.action && q.wait_speed == p.wait_speed
                    && q.walk_speed == p.walk_speed && q.attack_speed == p.attack_speed
                    && q.range_tenths == p.range_tenths,
                _ => false,
            }),
            _ => true,
        }
}

/// Index-preserving per-entity transforms that keep ids, positions and
/// player scheduling state (other than `except`'s) give `player_pres`.
proof fn lemma_pres_pointwise(w0: World, w1: World, except: Idx)
    requires
        w0.wf(),
        w1.levels@.len() == w0.levels@.len(),
        forall|a: int|
            0 <= a < w0.levels@.len() ==> (#[trigger] w1.levels@[a].entities@).len() == w0.levels@[
                a
            ].entities@.len(),
        forall|a: int, i: int|
            w0.slot_ok(a, i) ==> (#[trigger] w1.levels@[a].entities@[i]).position == w0.levels@[
                a
            ].entities@[i].position && w1.levels@[a].entities@[i].level == w0.levels@[
                a
            ].entities@[i].level && w1.levels@[a].entities@[i].object.spec_idx() == w0.levels@[
                a
            ].entities@[i].object.spec_idx() && (match w0.levels@[a].entities@[i].object {
                Object::Player(p) => p.idx != except ==> match w1.levels@[a].entities@[i].object {
                    Object::Player(q) => q.idx == p.idx && q.cooldown == p.cooldown && q.wait_time
                        == p.wait_time && q.action == p.action && q.wait_speed == p.wait_speed
                        && q.walk_speed == p.walk_speed && q.attack_speed == p.attack_speed
                        && q.range_tenths == p.range_tenths,
                    _ => false,
                },
                _ => true,
            }),
    ensures
        player_pres(w0, w1, except),
{
    assert forall|a: int, i: int, b: int, j: int|
        #![trigger w0.levels@[a].entities@[i], w1.levels@[b].entities@[j]]
        w0.slot_ok(a, i) && w1.slot_ok(b, j) implies match w0.levels@[a].entities@[i].object {
        Object::Player(p) => (p.idx != except && w1.levels@[b].entities@[j].object.spec_idx()
            == p.idx) ==> (w1.levels@[b].entities@[j].position == w0.levels@[
            a
        ].entities@[i].position && w1.levels@[b].entities@[j].level == w0.levels@[
            a
        ].entities@[i].level && match w1.levels@[b].entities@[j].object {
            Object::Player(q) => q.idx == p.idx && q.cooldown == p.cooldown && q.wait_time
                == p.wait_time && q.action == p.action && q.wait_speed == p.wait_speed
                && q.walk_speed == p.walk_speed && q.attack_speed == p.attack_speed
                && q.range_tenths == p.range_tenths,
            _ => false,
        }),
        _ => true,
    } by {
        match w0.levels@[a].entities@[i].object {
            Object::Player(p) => {
                if p.idx != except && w1.levels@[b].entities@[j].object.spec_idx() == p.idx {
                    assert(w0.levels@[b].entities@[j].object.spec_idx() == p.idx);
                    if a != b {
                        assert(w0.levels@[a].contains_id(p.idx));
                        assert(w0.levels@[b].contains_id(p.idx));
                        assert(false);
                    }
                    if i != j {
                        assert(w0.levels@[a].entities@[i].object.spec_idx() != w0.levels@[
                            a
                        ].entities@[j].object.spec_idx());
                        assert(false);
                    }
                }
            },
            _ => {},
        }
    }
}

/// Letting time pass only lowers counters, so room for a whole action is
/// kept.
pub proof fn lemma_lapse_keeps_charge(w0: World, w1: World, v: i64)
    requires
        w0.wf(),
        w0.all_can_charge(),
        lapse_outcome(w0, w1, v),
        w1.levels@.len() == w0.levels@.len(),
        forall|a: int|
            0 <= a < w0.levels@.len() ==> (#[trigger] w1.levels@[a].entities@).len() == w0.levels@[
                a
            ].entities@.len(),
    ensures
        w1.all_can_charge(),
{
    assert forall|a: int, i: int|
        w1.slot_ok(a, i) implies (#[trigger] w1.levels@[a].entities@[i]).object.can_charge() by {
        assert(w0.slot_ok(a, i));
        assert(w1.levels@[a].entities@[i] == (Entity {
            object: w0.levels@[a].entities@[i].object.spec_lapse(v),
            ..w0.levels@[a].entities@[i]
        }));
        assert(w0.levels@[a].entities@[i].object.can_charge());
    }
}

/// A world preserves its own players.
proof fn lemma_pres_refl(w: World, except: Idx)
    requires
        w.wf(),
    ensures
        player_pres(w, w, except),
{
    lemma_pres_pointwise(w, w, except);
}

/// `player_pres` composes across an intermediate state whose entity ids
/// are the same.
proof fn lemma_pres_trans(w0: World, w1: World, w2: World, except: Idx)
    requires
        w0.wf(),
        w1.wf(),
        player_pres(w0, w1, except),
        player_pres(w1, w2, except),
        forall|id: Idx| #[trigger] w1.spec_has(id) == w0.spec_has(id),
    ensures
        player_pres(w0, w2, except),
{
    assert forall|a: int, i: int, b: int, j: int|
        #![trigger w0.levels@[a].entities@[i], w2.levels@[b].entities@[j]]
        w0.slot_ok(a, i) && w2.slot_ok(b, j) implies match w0.levels@[a].entities@[i].object {
        Object::Player(p) => (p.idx != except && w2.levels@[b].entities@[j].object.spec_idx()
            == p.idx) ==> (w2.levels@[b].entities@[j].position == w0.levels@[
            a
        ].entities@[i].position && w2.levels@[b].entities@[j].level == w0.levels@[
            a
        ].entities@[i].level && match w2.levels@[b].entities@[j].object {
            Object::Player(q) => q.idx == p.idx && q.cooldown == p.cooldown && q.wait_time
                == p.wait_time && q.action == p.action && q.wait_speed == p.wait_speed
                && q.walk_speed == p.walk_speed && q.attack_speed == p.attack_speed
                && q.range_tenths == p.range_tenths,
            _ => false,
        }),
        _ => true,
    } by {
        match w0.levels@[a].entities@[i].object {
            Object::Player(p) => {
                if p.idx != except && w2.levels@[b].entities@[j].object.spec_idx() == p.idx {
                    assert(w0.levels@[a].contains_id(p.idx));
                    assert(w0.spec_has(p.idx));
                    assert(w1.spec_has(p.idx));
                    let bb = choose|bb: int|
                        0 <= bb < w1.levels@.len() && (#[trigger] w1.levels@[bb]).contains_id(
                            p.idx,
                        );
                    let jj = choose|jj: int|
                        0 <= jj < w1.levels@[bb].entities@.len() && (#[trigger] w1.levels@[
                            bb
                        ].entities@[jj]).object.spec_idx() == p.idx;
                    // naming the three slots instantiates both
                    // preservation quantifiers through the middle state
                    assert(w0.levels@[a].entities@[i] == w0.levels@[a].entities@[i]);
                    assert(w1.levels@[bb].entities@[jj] == w1.levels@[bb].entities@[jj]);
                    assert(w2.levels@[b].entities@[j] == w2.levels@[b].entities@[j]);
                }
            },
            _ => {},
        }
    }
}

/// The world: every level, a monotonic id counter, the process-wide random
/// stream, and the elapsed logical time.
pub struct World {
    pub rand: rand::XorShiftRng,
    pub levels: Vec<Level>,
    pub next_id: u32,
    pub time: i64,
}

impl World {
    /// Every level is well-formed, level ids are unique, entity ids are
    /// unique across the whole world, and the clock never runs backwards
    /// past its start.
    pub open spec fn wf(self) -> bool {
        &&& forall|a: int| 0 <= a < self.levels@.len() ==> (#[trigger] self.levels@[a]).wf()
        &&& forall|a: int, b: int|
            0 <= a < b < self.levels@.len() ==> (#[trigger] self.levels@[a]).idx != (
            #[trigger] self.levels@[b]).idx
        &&& forall|a: int, b: int, id: Idx|
            0 <= a < self.levels@.len() && 0 <= b < self.levels@.len() && a != b ==> !((
            #[trigger] self.levels@[a].contains_id(id)) && (
            #[trigger] self.levels@[b].contains_id(id)))
        &&& 0 <= self.time
    }

    /// Whether some level holds an entity with this id.
    pub open spec fn spec_has(self, id: Idx) -> bool {
        exists|a: int| 0 <= a < self.levels@.len() && (#[trigger] self.levels@[a]).contains_id(id)
    }

    /// The entity with this id, or `None` when no level holds it (well
    /// defined for a well-formed world, whose entity ids are unique).
    pub open spec fn spec_lookup(self, id: Idx) -> Option<Entity> {
        if self.spec_has(id) {
            let a = choose|a: int|
                0 <= a < self.levels@.len() && (#[trigger] self.levels@[a]).contains_id(id);
            let i = choose|i: int|
                0 <= i < self.levels@[a].entities@.len() && (#[trigger] self.levels@[a].entities@[
                    i
                ]).object.spec_idx() == id;
            Some(self.levels@[a].entities@[i])
        } else {
            None
        }
    }
}

/// When a transform keeps every level's stored id set, it keeps the
/// world's id set and its cross-level uniqueness.
proof fn lemma_levels_keep_ids(w0: World, w1: World)
    requires
        w0.wf(),
        w1.levels@.len() == w0.levels@.len(),
        forall|b: int, id: Idx|
            0 <= b < w0.levels@.len() ==> (#[trigger] w1.levels@[b].contains_id(id))
                == w0.levels@[b].contains_id(id),
    ensures
        forall|id: Idx| #[trigger] w1.spec_has(id) == w0.spec_has(id),
        forall|x: int, y: int, id: Idx|
            0 <= x < w1.levels@.len() && 0 <= y < w1.levels@.len() && x != y ==> !((
            #[trigger] w1.levels@[x].contains_id(id)) && (#[trigger] w1.levels@[y].contains_id(
                id,
            ))),
{
    assert forall|id: Idx| #[trigger] w1.spec_has(id) == w0.spec_has(id) by {
        if w0.spec_has(id) {
            let b = choose|b: int|
                0 <= b < w0.levels@.len() && (#[trigger] w0.levels@[b]).contains_id(id);
            assert(w1.levels@[b].contains_id(id));
        }
        if w1.spec_has(id) {
            let b = choose|b: int|
                0 <= b < w1.levels@.len() && (#[trigger] w1.levels@[b]).contains_id(id);
            assert(w0.levels@[b].contains_id(id));
        }
    }
}

/// In a well-formed world an id determines its entity: any storage slot
/// holding the id holds the looked-up entity.
pub proof fn lemma_lookup_unique(w: World, id: Idx, a: int, i: int)
    requires
        w.wf(),
        0 <= a < w.levels@.len(),
        0 <= i < w.levels@[a].entities@.len(),
        w.levels@[a].entities@[i].object.spec_idx() == id,
    ensures
        w.spec_lookup(id) == Some(w.levels@[a].entities@[i]),
{
    assert(w.levels@[a].contains_id(id));
    assert(w.spec_has(id));
    let a2 = choose|a2: int|
        0 <= a2 < w.levels@.len() && (#[trigger] w.levels@[a2]).contains_id(id);
    assert(a2 == a);
    let i2 = choose|i2: int|
        0 <= i2 < w.levels@[a2].entities@.len() && (#[trigger] w.levels@[a2].entities@[
            i2
        ]).object.spec_idx() == id;
    if i2 != i {
        assert(w.levels@[a].entities@[i2].object.spec_idx() != w.levels@[
            a
        ].entities@[i].object.spec_idx());
    }
}

impl World {
    /// A fresh world: no levels, the id counter and clock at zero, and the
    /// random stream at its fixed initial seed.
    pub fn new() -> (r: World)
        ensures
            r.levels@.len() == 0,
            r.next_id == 0,
            r.time == 0,
            r.wf(),
    {
        World { rand: rng_from_seed(1, 2, 3, 4), levels: Vec::new(), next_id: 0, time: 0 }
    }

    /// The levels of the world.
    pub fn levels(&self) -> (r: &Vec<Level>)
        ensures
            r@ == self.levels@,
    {
        &self.levels
    }

    /// Issue the next entity id and advance the counter; ids are never
    /// reused.
    pub fn next_id(&mut self) -> (r: Idx)
        requires
            old(self).next_id < u32::MAX,
        ensures
            r == old(self).next_id,
            final(self).next_id == old(self).next_id + 1,
            final(self).levels == old(self).levels,
            final(self).time == old(self).time,
            final(self).rand == old(self).rand,
    {
        let next = self.next_id;
        self.next_id = next + 1;
        next
    }

    /// Add a level. Its id and its entities' ids must be fresh.
    pub fn add_level(&mut self, level: Level)
        requires
            old(self).wf(),
            level.wf(),
            forall|a: int| 0 <= a < old(self).levels@.len() ==> (#[trigger] old(self).levels@[a]).idx != level.idx,
            forall|id: Idx| #[trigger] level.contains_id(id) ==> !old(self).spec_has(id),
        ensures
            final(self).wf(),
            final(self).levels@ == old(self).levels@.push(level),
            final(self).time == old(self).time,
            final(self).next_id == old(self).next_id,
            final(self).rand == old(self).rand,
    {
        self.levels.push(level);
    }

    /// Detach and return the level with the given id, or `None` when no
    /// level has it.
    pub fn remove_lvl(&mut self, idx: Idx) -> (r: Option<Level>)
        requires
            old(self).wf(),
        ensures
            final(self).wf(),
            final(self).time == old(self).time,
            final(self).next_id == old(self).next_id,
            final(self).rand == old(self).rand,
            match r {
                None => (forall|a: int|
                    0 <= a < old(self).levels@.len() ==> (#[trigger] old(self).levels@[a]).idx
                        != idx) && *final(self) == *old(self),
                Some(l) => l.idx == idx && exists|a: int|
                    0 <= a < old(self).levels@.len() && old(self).levels@[a] == l
                        && final(self).levels@ == old(self).levels@.remove(a),
            },
    {
        let mut a: usize = 0;
        while a < self.levels.len()
            invariant
                *self == *old(self),
                old(self).wf(),
                0 <= a <= self.levels@.len(),
                forall|b: int| 0 <= b < a ==> (#[trigger] self.levels@[b]).idx != idx,
            decreases self.levels@.len() - a,
        {
            if self.levels[a].idx() == idx {
                let l = self.levels.remove(a);
                proof {
                    let olds = old(self).levels@;
                    assert(self.levels@ == olds.remove(a as int));
                    assert forall|x: int|
                        0 <= x < self.levels@.len() implies (#[trigger] self.levels@[x]).wf() by {
                        if x < a as int {
                            assert(self.levels@[x] == olds[x]);
                        } else {
                            assert(self.levels@[x] == olds[x + 1]);
                        }
                    }
                    assert forall|x: int, y: int|
                        0 <= x < y < self.levels@.len() implies (#[trigger] self.levels@[x]).idx
                        != (#[trigger] self.levels@[y]).idx by {
                        let ox = if x < a as int {
                            x
                        } else {
                            x + 1
                        };
                        let oy = if y < a as int {
                            y
                        } else {
                            y + 1
                        };
                        assert(self.levels@[x] == olds[ox]);
                        assert(self.levels@[y] == olds[oy]);
                    }
                    assert forall|x: int, y: int, id: Idx|
                        0 <= x < self.levels@.len() && 0 <= y < self.levels@.len() && x
                            != y implies !((#[trigger] self.levels@[x].contains_id(id)) && (
                    #[trigger] self.levels@[y].contains_id(id))) by {
                        let ox = if x < a as int {
                            x
                        } else {
                            x + 1
                        };
                        let oy = if y < a as int {
                            y
                        } else {
                            y + 1
                        };
                        assert(self.levels@[x] == olds[ox]);
                        assert(self.levels@[y] == olds[oy]);
                        assert(!(olds[ox].contains_id(id) && olds[oy].contains_id(id)));
                    }
                }
                return Some(l);
            }
            a = a + 1;
        }
        None
    }

    /// The index of the level holding the entity with this id.
    pub fn find_level_of(&self, id: Idx) -> (r: Option<usize>)
        requires
            self.wf(),
        ensures
            match r {
                None => !self.spec_has(id),
                Some(a) => a < self.levels@.len() && self.levels@[a as int].contains_id(id),
            },
    {
        let mut a: usize = 0;
        while a < self.levels.len()
            invariant
                self.wf(),
                0 <= a <= self.levels@.len(),
                forall|b: int| 0 <= b < a ==> !(#[trigger] self.levels@[b]).contains_id(id),
            decreases self.levels@.len() - a,
        {
            let found = self.levels[a].find_entity(id);
            if found.is_some() {
                return Some(a);
            }
            a = a + 1;
        }
        None
    }

    /// The entity with this id, or `None` when no level holds it.
    pub fn get_entity(&self, id: Idx) -> (r: Option<Entity>)
        requires
            self.wf(),
        ensures
            r == self.spec_lookup(id),
            match r {
                None => !self.spec_has(id),
                Some(e) => self.spec_has(id) && e.object.spec_idx() == id,
            },
    {
        match self.find_level_of(id) {
            None => None,
            Some(a) => {
                match self.levels[a].find_entity(id) {
                    None => {
                        proof {
                            assert(false);
                        }
                        None
                    },
                    Some(i) => {
                        let e = self.levels[a].entity_at(i);
                        proof {
                            lemma_lookup_unique(*self, id, a as int, i as int);
                        }
                        Some(e)
                    },
                }
            },
        }
    }

    /// The cooldown of the entity in storage slot `(a, i)`.
    pub open spec fn spec_cd(self, a: int, i: int) -> i64 {
        self.levels@[a].entities@[i].object.spec_cooldown()
    }

    /// Whether slot `(a, i)` names an entity of the world.
    pub open spec fn slot_ok(self, a: int, i: int) -> bool {
        0 <= a < self.levels@.len() && 0 <= i < self.levels@[a].entities@.len()
    }
}

/// What one scheduling step does, for interval `v`: `v` is the smallest
/// cooldown over all entities of `w0` (and is attained), the clock grows
/// by exactly `v`, and every entity's counters lapse by `v`, floored at
/// zero.
pub open spec fn lapse_outcome(w0: World, w1: World, v: i64) -> bool {
    &&& 0 <= v
    &&& (forall|a: int, i: int| w0.slot_ok(a, i) ==> v <= #[trigger] w0.spec_cd(a, i))
    &&& (exists|a: int, i: int| w0.slot_ok(a, i) && #[trigger] w0.spec_cd(a, i) == v)
    &&& w1.time == w0.time + v
    &&& (forall|a: int, i: int|
        w0.slot_ok(a, i) ==> #[trigger] w1.levels@[a].entities@[i] == (Entity {
            object: w0.levels@[a].entities@[i].object.spec_lapse(v),
            ..w0.levels@[a].entities@[i]
        }))
}

impl World {

    /// Advance the global clock by the smallest cooldown among all
    /// entities: every entity's cooldown and wait time drop by that
    /// interval (never below zero), the clock grows by exactly the
    /// interval, and the first entity now at cooldown zero — in level
    /// order, then storage order, a fixed deterministic tie-break — is
    /// returned as ready.
    pub fn lapse_time(&mut self) -> (r: Option<Idx>)
        requires
            old(self).wf(),
            exists|a: int, i: int|
                old(self).slot_ok(a, i) && old(self).time + #[trigger] old(self).spec_cd(a, i)
                    <= i64::MAX,
        ensures
            final(self).wf(),
            final(self).next_id == old(self).next_id,
            final(self).rand == old(self).rand,
            final(self).levels@.len() == old(self).levels@.len(),
            forall|a: int|
                0 <= a < old(self).levels@.len() ==> (#[trigger] final(self).levels@[a]).idx
                    == old(self).levels@[a].idx && final(self).levels@[a].size == old(self).levels@[a].size && final(self).levels@[a].entities@.len() == old(self).levels@[a].entities@.len(),
            forall|id: Idx| #[trigger] final(self).spec_has(id) == old(self).spec_has(id),
            exists|v: i64| #[trigger] lapse_outcome(*old(self), *final(self), v),
            match r {
                None => forall|a: int, i: int|
                    final(self).slot_ok(a, i) ==> #[trigger] final(self).spec_cd(a, i) != 0,
                Some(id) => exists|a: int, i: int|
                    final(self).slot_ok(a, i) && #[trigger] final(self).spec_cd(a, i) == 0
                        && final(self).levels@[a].entities@[i].object.spec_idx() == id && (forall|
                        b: int,
                        j: int,
                    |
                        final(self).slot_ok(b, j) && (b < a || (b == a && j < i))
                            ==> #[trigger] final(self).spec_cd(b, j) != 0),
            },
    {
        let ghost w0 = *old(self);
        // the smallest cooldown over every level
        let mut interval: i64 = i64::MAX;
        let mut a: usize = 0;
        while a < self.levels.len()
            invariant
                *self == w0,
                w0.wf(),
                0 <= a <= self.levels@.len(),
                forall|b: int, j: int|
                    w0.slot_ok(b, j) && b < a ==> interval <= #[trigger] w0.spec_cd(b, j),
                interval == i64::MAX || exists|b: int, j: int|
                    w0.slot_ok(b, j) && b < a && #[trigger] w0.spec_cd(b, j) == interval,
            decreases self.levels@.len() - a,
        {
            let m = self.levels[a].min_cooldown();
            if m < interval {
                proof {
                    let j = choose|j: int|
                        0 <= j < w0.levels@[a as int].entities@.len() && (#[trigger] w0.levels@[
                            a as int
                        ].entities@[j]).object.spec_cooldown() == m;
                    assert(w0.slot_ok(a as int, j) && w0.spec_cd(a as int, j) == m);
                }
                interval = m;
            }
            a = a + 1;
        }
        proof {
            let (wa, wi) = choose|wa: int, wi: int|
                w0.slot_ok(wa, wi) && w0.time + #[trigger] w0.spec_cd(wa, wi) <= i64::MAX;
            assert(interval <= w0.spec_cd(wa, wi));
            assert(interval == i64::MAX ==> w0.spec_cd(wa, wi) == i64::MAX);
            assert(exists|b: int, j: int| w0.slot_ok(b, j) && #[trigger] w0.spec_cd(b, j) == interval);
            assert(w0.time + interval <= i64::MAX);
            assert(0 <= interval) by {
                let (ba, bj) = choose|ba: int, bj: int|
                    w0.slot_ok(ba, bj) && #[trigger] w0.spec_cd(ba, bj) == interval;
                let obj = w0.levels@[ba].entities@[bj].object;
                assert(w0.levels@[ba].wf());
                assert(obj.wf());
            }
        }
        // let the interval pass for every entity
        let mut a2: usize = 0;
        while a2 < self.levels.len()
            invariant
                w0.wf(),
                0 <= interval,
                0 <= a2 <= self.levels@.len(),
                self.levels@.len() == w0.levels@.len(),
                self.rand == w0.rand,
                self.next_id == w0.next_id,
                self.time == w0.time,
                forall|b: int|
                    0 <= b < a2 ==> (#[trigger] self.levels@[b]).idx == w0.levels@[b].idx
                        && self.levels@[b].size == w0.levels@[b].size && self.levels@[b].wf()
                        && self.levels@[b].entities@.len() == w0.levels@[b].entities@.len(),
                forall|b: int|
                    0 <= b < a2 ==> forall|id: Idx| #[trigger] (#[trigger] self.levels@[b]).contains_id(id)
                        == w0.levels@[b].contains_id(id),
                forall|b: int, j: int|
                    w0.slot_ok(b, j) && b < a2 ==> #[trigger] self.levels@[b].entities@[j]
                        == (Entity {
                        object: w0.levels@[b].entities@[j].object.spec_lapse(interval),
                        ..w0.levels@[b].entities@[j]
                    }),
                forall|b: int| a2 <= b < self.levels@.len() ==> self.levels@[b] == w0.levels@[b],
            decreases self.levels@.len() - a2,
        {
            self.levels[a2].lapse_all(interval);
            a2 = a2 + 1;
        }
        self.time = self.time + interval;
        proof {
            assert(lapse_outcome(w0, *self, interval));
            assert forall|b: int, id2: Idx|
                0 <= b < w0.levels@.len() implies (#[trigger] self.levels@[b].contains_id(id2))
                == w0.levels@[b].contains_id(id2) by {}
            lemma_levels_keep_ids(w0, *self);
        }
        self.first_ready_world()
    }

    /// The first entity at cooldown zero, in level order then storage
    /// order.
    fn first_ready_world(&self) -> (r: Option<Idx>)
        ensures
            match r {
                None => forall|a: int, i: int|
                    self.slot_ok(a, i) ==> #[trigger] self.spec_cd(a, i) != 0,
                Some(id) => exists|a: int, i: int|
                    self.slot_ok(a, i) && #[trigger] self.spec_cd(a, i) == 0
                        && self.levels@[a].entities@[i].object.spec_idx() == id && (forall|
                        b: int,
                        j: int,
                    |
                        self.slot_ok(b, j) && (b < a || (b == a && j < i))
                            ==> #[trigger] self.spec_cd(b, j) != 0),
            },
    {
        let mut a3: usize = 0;
        while a3 < self.levels.len()
            invariant
                0 <= a3 <= self.levels@.len(),
                forall|b: int, j: int|
                    self.slot_ok(b, j) && b < a3 ==> #[trigger] self.spec_cd(b, j) != 0,
            decreases self.levels@.len() - a3,
        {
            match self.levels[a3].first_ready() {
                Some(id) => {
                    proof {
                        let lvl = self.levels@[a3 as int];
                        let i = choose|i: int|
                            0 <= i < lvl.entities@.len() && (
                            #[trigger] lvl.entities@[i]).object.spec_cooldown() == 0
                                && lvl.entities@[i].object.spec_idx() == id && (forall|j: int|
                                0 <= j < i ==> (#[trigger] lvl.entities@[j]).object.spec_cooldown()
                                    != 0);
                        assert(self.slot_ok(a3 as int, i) && self.spec_cd(a3 as int, i) == 0);
                        assert forall|b: int, j: int|
                            self.slot_ok(b, j) && (b < a3 as int || (b == a3 as int && j
                                < i)) implies #[trigger] self.spec_cd(b, j) != 0 by {
                            if b == a3 as int {
                                assert(lvl.entities@[j].object.spec_cooldown() != 0);
                            }
                        }
                    }
                    return Some(id);
                },
                None => {},
            }
            a3 = a3 + 1;
        }
        None
    }

    /// A fresh effects bundle for one invocation: the action queue and
    /// message list empty, and a child random stream reseeded
    /// deterministically from the world's stream.
    pub fn build_effects(&mut self) -> (r: Effects)
        ensures
            final(self).levels == old(self).levels,
            final(self).time == old(self).time,
            final(self).next_id == old(self).next_id,
            r.actions@.len() == 0,
            r.messages@.len() == 0,
    {
        let s0 = rng_next_u32(&mut self.rand);
        let s1 = rng_next_u32(&mut self.rand);
        let s2 = rng_next_u32(&mut self.rand);
        let s3 = rng_next_u32(&mut self.rand);
        let rand = if s0 == 0 && s1 == 0 && s2 == 0 && s3 == 0 {
            rng_from_seed(1, 2, 3, 4)
        } else {
            rng_from_seed(s0, s1, s2, s3)
        };
        Effects { rand, messages: Vec::new(), actions: Vec::new() }
    }

    /// Whether every entity of the world has room on its counters for one
    /// whole executed action.
    pub open spec fn all_can_charge(self) -> bool {
        forall|a: int, i: int|
            self.slot_ok(a, i) ==> (#[trigger] self.levels@[a].entities@[i]).object.can_charge()
    }

    /// Preserved by every action: level count, level ids, board sizes, the
    /// clock, the id counter and the random stream.
    pub open spec fn same_shape(self, w1: World) -> bool {
        &&& w1.levels@.len() == self.levels@.len()
        &&& (forall|a: int|
            0 <= a < self.levels@.len() ==> (#[trigger] w1.levels@[a]).idx == self.levels@[a].idx
                && w1.levels@[a].size == self.levels@[a].size)
        &&& w1.time == self.time
        &&& w1.next_id == self.next_id
        &&& w1.rand == self.rand
        &&& (forall|id: Idx| #[trigger] w1.spec_has(id) == self.spec_has(id))
    }

    /// Apply an executed action to the turn-state of the entity with this
    /// id, in place. Reports whether the entity was found.
    fn exec_on(&mut self, id: Idx, action: &Action) -> (found: bool)
        requires
            old(self).wf(),
            forall|a: int, i: int|
                old(self).slot_ok(a, i) && (#[trigger] old(self).levels@[a].entities@[i]).object.spec_idx() == id ==> old(self).levels@[a].entities@[i].object.charge_room_for(*action),
        ensures
            final(self).wf(),
            old(self).same_shape(*final(self)),
            !found ==> !old(self).spec_has(id) && *final(self) == *old(self),
            forall|a: int|
                0 <= a < old(self).levels@.len() ==> (#[trigger] final(self).levels@[a].entities@).len() == old(self).levels@[a].entities@.len(),
            found ==> exists|a: int|
                0 <= a < old(self).levels@.len() && (#[trigger] old(self).levels@[a]).contains_id(
                    id,
                ) && (forall|b: int|
                    0 <= b < old(self).levels@.len() && b != a ==> #[trigger] final(self).levels@[b] == old(self).levels@[b]),
            found ==> old(self).spec_has(id) && forall|a: int, i: int|
                old(self).slot_ok(a, i) ==> #[trigger] final(self).levels@[a].entities@[i] == ({
                    let e = old(self).levels@[a].entities@[i];
                    if e.object.spec_idx() == id {
                        Entity { object: e.object.spec_execute(*action), ..e }
                    } else {
                        e
                    }
                }),
    {
        let li = match self.find_level_of(id) {
            None => {
                return false;
            },
            Some(li) => li,
        };
        let ei = match self.levels[li].find_entity(id) {
            None => {
                proof {
                    assert(false);
                }
                return false;
            },
            Some(ei) => ei,
        };
        let e = self.levels[li].entity_at(ei);
        let mut obj = e.object;
        obj.execute_action(action);
        self.levels[li].set_entity_object(ei, obj);
        proof {
            let w0 = *old(self);
            assert(w0.levels@[li as int].contains_id(id));
            assert forall|b: int|
                0 <= b < w0.levels@.len() && b != li as int implies #[trigger] self.levels@[b]
                == w0.levels@[b] by {}
            assert forall|a: int, i: int|
                w0.slot_ok(a, i) implies #[trigger] self.levels@[a].entities@[i] == ({
                let e2 = w0.levels@[a].entities@[i];
                if e2.object.spec_idx() == id {
                    Entity { object: e2.object.spec_execute(*action), ..e2 }
                } else {
                    e2
                }
            }) by {
                if a == li as int {
                    if i != ei as int {
                        assert(w0.levels@[a].entities@[i].object.spec_idx() != w0.levels@[
                            a
                        ].entities@[ei as int].object.spec_idx());
                    }
                } else {
                    assert(self.levels@[a] == w0.levels@[a]);
                    if w0.levels@[a].entities@[i].object.spec_idx() == id {
                        assert(w0.levels@[a].contains_id(id));
                        assert(w0.levels@[li as int].contains_id(id));
                        assert(false);
                    }
                }
            }
            assert forall|b: int, id2: Idx|
                0 <= b < w0.levels@.len() implies (#[trigger] self.levels@[b].contains_id(id2))
                == w0.levels@[b].contains_id(id2) by {
                if b != li as int {
                    assert(self.levels@[b] == w0.levels@[b]);
                }
            }
            lemma_levels_keep_ids(w0, *self);
        }
        true
    }

    /// Resolve one action against the world. An action that names a
    /// missing entity id breaks the engine's invariant that actions only
    /// name existing entities; it is refused before anything changes, so
    /// the turn aborts cleanly.
    ///
    /// An attack touches the target's behavior (one health lost, floored
    /// at zero) and then the source's (its attack speed charged onto its
    /// cooldown). A walk onto a blocking or off-board tile is silently
    /// dropped: no movement and no cooldown charge; otherwise the actor
    /// moves to the destination and is charged exactly its walk speed. A
    /// wait charges the actor's wait speed onto its wait time.
    pub fn execute_action(&mut self, action: Action) -> (r: Result<(), EngineError>)
        requires
            old(self).wf(),
            old(self).all_can_charge(),
        ensures
            final(self).wf(),
            old(self).same_shape(*final(self)),
            forall|a: int|
                0 <= a < old(self).levels@.len() ==> (#[trigger] final(self).levels@[a].entities@).len()
                    == old(self).levels@[a].entities@.len(),
            match action {
                Action::Wait { idx } => {
                    if old(self).spec_has(idx) {
                        r == Result::<(), EngineError>::Ok(()) && forall|a: int, i: int|
                            old(self).slot_ok(a, i) ==> #[trigger] final(self).levels@[a].entities@[i] == ({
                                let e = old(self).levels@[a].entities@[i];
                                if e.object.spec_idx() == idx {
                                    Entity { object: e.object.spec_execute(action), ..e }
                                } else {
                                    e
                                }
                            })
                    } else {
                        r == Result::<(), EngineError>::Err(EngineError::MissingEntity(idx))
                            && *final(self) == *old(self)
                    }
                },
                Action::Attack { source, target } => {
                    if !old(self).spec_has(target) {
                        r == Result::<(), EngineError>::Err(EngineError::MissingEntity(target))
                            && *final(self) == *old(self)
                    } else if !old(self).spec_has(source) {
                        r == Result::<(), EngineError>::Err(EngineError::MissingEntity(source))
                            && *final(self) == *old(self)
                    } else {
                        r == Result::<(), EngineError>::Ok(()) && forall|a: int, i: int|
                            old(self).slot_ok(a, i) ==> #[trigger] final(self).levels@[a].entities@[i] == ({
                                let e = old(self).levels@[a].entities@[i];
                                Entity {
                                    object: spec_attack_touch(e.object, action, source, target),
                                    ..e
                                }
                            })
                    }
                },
                Action::Walk { idx, position } => {
                    if !old(self).spec_has(idx) {
                        r == Result::<(), EngineError>::Err(EngineError::MissingEntity(idx))
                            && *final(self) == *old(self)
                    } else {
                        r == Result::<(), EngineError>::Ok(()) && exists|a: int|
                            0 <= a < old(self).levels@.len() && (#[trigger] old(self).levels@[a]).contains_id(idx) && if spec_walk_blocked(
                                old(self).levels@[a],
                                position,
                            ) {
                                *final(self) == *old(self)
                            } else {
                                (forall|b: int|
                                    0 <= b < old(self).levels@.len() && b != a
                                        ==> #[trigger] final(self).levels@[b] == old(self).levels@[b]) && exists|i: int|
                                    0 <= i < old(self).levels@[a].entities@.len() && (
                                    #[trigger] old(self).levels@[a].entities@[i]).object.spec_idx()
                                        == idx && final(self).levels@[a].entities@ == old(self).levels@[a].entities@.remove(i).push(
                                        Entity {
                                            object: old(self).levels@[a].entities@[i].object.spec_execute(action),
                                            level: old(self).levels@[a].idx,
                                            position,
                                        },
                                    )
                            }
                    }
                },
            },
    {
        match action {
            Action::Wait { idx } => {
                proof {
                    lemma_can_charge_room(*old(self), idx, action);
                }
                if self.exec_on(idx, &action) {
                    Ok(())
                } else {
                    Err(EngineError::MissingEntity(idx))
                }
            },
            Action::Attack { source, target } => {
                if self.get_entity(target).is_none() {
                    return Err(EngineError::MissingEntity(target));
                }
                if self.get_entity(source).is_none() {
                    return Err(EngineError::MissingEntity(source));
                }
                let ghost w0 = *self;
                proof {
                    lemma_can_charge_room(w0, target, action);
                }
                let f1 = self.exec_on(target, &action);
                proof {
                    assert(f1);
                    let wm = *self;
                    assert forall|a: int, i: int|
                        wm.slot_ok(a, i) && (#[trigger] wm.levels@[a].entities@[i]).object.spec_idx()
                            == source implies wm.levels@[a].entities@[i].object.charge_room_for(
                        action,
                    ) by {
                        assert(w0.slot_ok(a, i));
                        let e0 = w0.levels@[a].entities@[i];
                        assert(e0.object.spec_execute(action).spec_idx() == e0.object.spec_idx());
                        assert(e0.object.spec_idx() == source);
                        assert(e0.object.can_charge());
                        assert(w0.levels@[a].wf());
                        assert(e0.object.wf());
                    }
                }
                let f2 = self.exec_on(source, &action);
                proof {
                    assert(f2);
                    assert forall|a: int, i: int|
                        w0.slot_ok(a, i) implies #[trigger] self.levels@[a].entities@[i] == ({
                        let e = w0.levels@[a].entities@[i];
                        Entity { object: spec_attack_touch(e.object, action, source, target), ..e }
                    }) by {
                        let e = w0.levels@[a].entities@[i];
                        assert(e.object.spec_execute(action).spec_idx() == e.object.spec_idx());
                    }
                }
                Ok(())
            },
            Action::Walk { idx, position } => {
                let li = match self.find_level_of(idx) {
                    None => {
                        return Err(EngineError::MissingEntity(idx));
                    },
                    Some(li) => li,
                };
                let blocked = match self.levels[li].get_tile(position) {
                    None => true,
                    Some(t) => Level::is_blocking(&t),
                };
                if blocked {
                    proof {
                        assert(spec_walk_blocked(old(self).levels@[li as int], position));
                    }
                    return Ok(());
                }
                let ghost w0 = *self;
                let moved = self.levels[li].move_entity(idx, position);
                proof {
                    assert(moved);
                }
                let ghost wm = *self;
                proof {
                    let i0 = choose|i: int|
                        0 <= i < w0.levels@[li as int].entities@.len() && (#[trigger] w0.levels@[
                            li as int
                        ].entities@[i]).object.spec_idx() == idx && wm.levels@[
                            li as int
                        ].entities@ == w0.levels@[li as int].entities@.remove(i).push(
                            Entity {
                                object: w0.levels@[li as int].entities@[i].object,
                                level: w0.levels@[li as int].idx,
                                position,
                            },
                        );
                    assert(w0.levels@[li as int].entities@[i0].object.can_charge());
                    assert(w0.levels@[li as int].entities@[i0].object.wf());
                    assert forall|a: int, i: int|
                        wm.slot_ok(a, i) && (#[trigger] wm.levels@[a].entities@[i]).object.spec_idx()
                            == idx implies wm.levels@[a].entities@[i].object.charge_room_for(
                        action,
                    ) by {
                        if a != li as int {
                            assert(wm.levels@[a] == w0.levels@[a]);
                            assert(w0.levels@[a].contains_id(idx));
                            assert(w0.levels@[li as int].contains_id(idx));
                            assert(false);
                        } else {
                            let n = wm.levels@[a].entities@.len() - 1;
                            if i < n {
                                let oi = if i < i0 {
                                    i
                                } else {
                                    i + 1
                                };
                                assert(wm.levels@[a].entities@[i] == w0.levels@[a].entities@[oi]);
                                assert(w0.levels@[a].entities@[oi].object.can_charge());
                                assert(w0.levels@[a].entities@[oi].object.wf());
                            } else {
                                assert(wm.levels@[a].entities@[i].object == w0.levels@[
                                    a
                                ].entities@[i0].object);
                            }
                        }
                    }
                }
                let f = self.exec_on(idx, &action);
                proof {
                    assert(f);
                    let i0 = choose|i: int|
                        0 <= i < w0.levels@[li as int].entities@.len() && (#[trigger] w0.levels@[
                            li as int
                        ].entities@[i]).object.spec_idx() == idx && wm.levels@[
                            li as int
                        ].entities@ == w0.levels@[li as int].entities@.remove(i).push(
                            Entity {
                                object: w0.levels@[li as int].entities@[i].object,
                                level: w0.levels@[li as int].idx,
                                position,
                            },
                        );
                    let moved_exec = Entity {
                        object: w0.levels@[li as int].entities@[i0].object.spec_execute(action),
                        level: w0.levels@[li as int].idx,
                        position,
                    };
                    let a2 = choose|a2: int|
                        0 <= a2 < wm.levels@.len() && (#[trigger] wm.levels@[a2]).contains_id(idx)
                            && (forall|b: int|
                            0 <= b < wm.levels@.len() && b != a2 ==> #[trigger] self.levels@[b]
                                == wm.levels@[b]);
                    if a2 != li as int {
                        assert(wm.levels@[li as int].contains_id(idx));
                        assert(false);
                    }
                    assert forall|b: int|
                        0 <= b < w0.levels@.len() && b != li as int implies #[trigger] self.levels@[
                        b
                    ] == w0.levels@[b] by {
                        assert(self.levels@[b] == wm.levels@[b]);
                        assert(wm.levels@[b] == w0.levels@[b]);
                    }
                    assert forall|id2: Idx| #[trigger] wm.spec_has(id2) == w0.spec_has(id2) by {
                        if w0.spec_has(id2) {
                            let b = choose|b: int|
                                0 <= b < w0.levels@.len() && (#[trigger] w0.levels@[b]).contains_id(
                                    id2,
                                );
                            assert(wm.levels@[b].contains_id(id2));
                        }
                        if wm.spec_has(id2) {
                            let b = choose|b: int|
                                0 <= b < wm.levels@.len() && (#[trigger] wm.levels@[b]).contains_id(
                                    id2,
                                );
                            if b == li as int && id2 != idx {
                                assert(w0.levels@[b].contains_id(id2));
                            }
                            if b == li as int && id2 == idx {
                                assert(w0.levels@[li as int].contains_id(idx));
                            }
                            if b != li as int {
                                assert(w0.levels@[b].contains_id(id2));
                            }
                        }
                    }
                    assert(self.levels@[li as int].entities@ =~= w0.levels@[
                        li as int
                    ].entities@.remove(i0).push(moved_exec)) by {
                        let n = wm.levels@[li as int].entities@.len() - 1;
                        assert(wm.levels@[li as int].entities@[n].object.spec_idx() == idx);
                        assert forall|j: int|
                            0 <= j < n implies (#[trigger] wm.levels@[
                            li as int
                        ].entities@[j]).object.spec_idx() != idx by {
                            let oi = if j < i0 {
                                j
                            } else {
                                j + 1
                            };
                            assert(wm.levels@[li as int].entities@[j] == w0.levels@[
                                li as int
                            ].entities@[oi]);
                            if w0.levels@[li as int].entities@[oi].object.spec_idx() == idx {
                                assert(w0.levels@[li as int].entities@[oi].object.spec_idx()
                                    == w0.levels@[li as int].entities@[i0].object.spec_idx());
                            }
                        }
                    }
                }
                Ok(())
            },
        }
    }

    /// Run every entity's perception step: each entity re-scans the
    /// visible hostiles of its own level and updates its remembered
    /// target. Perception only observes: every sighting is computed
    /// against the state as it stood when the pass began, and nothing but
    /// remembered targets and cleared wait times change.
    pub fn perceive_all(&mut self)
        requires
            old(self).wf(),
        ensures
            final(self).wf(),
            final(self).time == old(self).time,
            final(self).next_id == old(self).next_id,
            final(self).rand == old(self).rand,
            final(self).levels@.len() == old(self).levels@.len(),
            forall|a: int|
                0 <= a < old(self).levels@.len() ==> (#[trigger] final(self).levels@[a]).idx
                    == old(self).levels@[a].idx && final(self).levels@[a].size == old(self).levels@[a].size && final(self).levels@[a].entities@.len() == old(self).levels@[a].entities@.len(),
            forall|id: Idx| #[trigger] final(self).spec_has(id) == old(self).spec_has(id),
            forall|a: int, i: int|
                old(self).slot_ok(a, i) ==> exists|s: Option<(Idx, IPoint)>| #[trigger] sighting_step(
                    old(self).levels@[a].entities@[i],
                    final(self).levels@[a].entities@[i],
                    old(self).levels@[a],
                    s,
                ),
    {
        let ghost w0 = *old(self);
        // first phase: observe, against the unchanged state
        let mut sightings: Vec<Vec<Option<(Idx, IPoint)>>> = Vec::new();
        let mut a: usize = 0;
        while a < self.levels.len()
            invariant
                *self == w0,
                w0.wf(),
                0 <= a <= self.levels@.len(),
                sightings@.len() == a as int,
                forall|b: int|
                    0 <= b < a ==> (#[trigger] sightings@[b])@.len() == w0.levels@[
                        b
                    ].entities@.len(),
                forall|b: int, j: int|
                    0 <= b < a && 0 <= j < w0.levels@[b].entities@.len() ==> (match w0.levels@[
                        b
                    ].entities@[j].object {
                        Object::Character(c) => crate::character::sighting_matches(
                            c,
                            w0.levels@[b],
                            w0.levels@[b].entities@[j].position,
                            (#[trigger] sightings@[b]@[j]),
                        ),
                        _ => sightings@[b]@[j] is None,
                    }),
            decreases self.levels@.len() - a,
        {
            let n = self.levels[a].entity_count();
            let mut row: Vec<Option<(Idx, IPoint)>> = Vec::new();
            let mut i: usize = 0;
            while i < n
                invariant
                    *self == w0,
                    w0.wf(),
                    0 <= a < self.levels@.len(),
                    n == self.levels@[a as int].entities@.len(),
                    0 <= i <= n,
                    row@.len() == i as int,
                    forall|j: int|
                        0 <= j < i ==> (match w0.levels@[a as int].entities@[j].object {
                            Object::Character(c) => crate::character::sighting_matches(
                                c,
                                w0.levels@[a as int],
                                w0.levels@[a as int].entities@[j].position,
                                #[trigger] row@[j],
                            ),
                            _ => row@[j] is None,
                        }),
                decreases n - i,
            {
                let e = self.levels[a].entity_at(i);
                let s = e.object.update_target(&self.levels[a], e.position);
                row.push(s);
                i = i + 1;
            }
            sightings.push(row);
            a = a + 1;
        }
        // second phase: remember
        let mut a2: usize = 0;
        while a2 < self.levels.len()
            invariant
                w0.wf(),
                0 <= a2 <= self.levels@.len(),
                self.levels@.len() == w0.levels@.len(),
                self.time == w0.time,
                self.next_id == w0.next_id,
                self.rand == w0.rand,
                sightings@.len() == w0.levels@.len(),
                forall|b: int|
                    0 <= b < w0.levels@.len() ==> (#[trigger] sightings@[b])@.len() == w0.levels@[
                        b
                    ].entities@.len(),
                forall|b: int, j: int|
                    0 <= b < w0.levels@.len() && 0 <= j < w0.levels@[b].entities@.len() ==> (match
                        w0.levels@[b].entities@[j].object {
                        Object::Character(c) => crate::character::sighting_matches(
                            c,
                            w0.levels@[b],
                            w0.levels@[b].entities@[j].position,
                            (#[trigger] sightings@[b]@[j]),
                        ),
                        _ => sightings@[b]@[j] is None,
                    }),
                forall|b: int|
                    0 <= b < a2 ==> (#[trigger] self.levels@[b]).idx == w0.levels@[b].idx
                        && self.levels@[b].size == w0.levels@[b].size && self.levels@[b].wf()
                        && self.levels@[b].entities@.len() == w0.levels@[b].entities@.len(),
                forall|b: int|
                    0 <= b < a2 ==> forall|id: Idx| #[trigger] (#[trigger] self.levels@[b]).contains_id(id)
                        == w0.levels@[b].contains_id(id),
                forall|b: int, j: int|
                    0 <= b < a2 && 0 <= j < w0.levels@[b].entities@.len()
                        ==> #[trigger] self.levels@[b].entities@[j] == (Entity {
                        object: w0.levels@[b].entities@[j].object.spec_apply_sighting(
                            sightings@[b]@[j],
                        ),
                        ..w0.levels@[b].entities@[j]
                    }),
                forall|b: int| a2 <= b < self.levels@.len() ==> self.levels@[b] == w0.levels@[b],
            decreases self.levels@.len() - a2,
        {
            let n = self.levels[a2].entity_count();
            let mut i2: usize = 0;
            while i2 < n
                invariant
                    w0.wf(),
                    0 <= a2 < self.levels@.len(),
                    self.levels@.len() == w0.levels@.len(),
                    self.time == w0.time,
                    self.next_id == w0.next_id,
                    self.rand == w0.rand,
                    n == w0.levels@[a2 as int].entities@.len(),
                    0 <= i2 <= n,
                    sightings@.len() == w0.levels@.len(),
                    forall|b: int|
                        0 <= b < w0.levels@.len() ==> (#[trigger] sightings@[b])@.len()
                            == w0.levels@[b].entities@.len(),
                    forall|b: int, j: int|
                        0 <= b < w0.levels@.len() && 0 <= j < w0.levels@[b].entities@.len() ==> (
                        match w0.levels@[b].entities@[j].object {
                            Object::Character(c) => crate::character::sighting_matches(
                                c,
                                w0.levels@[b],
                                w0.levels@[b].entities@[j].position,
                                (#[trigger] sightings@[b]@[j]),
                            ),
                            _ => sightings@[b]@[j] is None,
                        }),
                    forall|b: int|
                        0 <= b < a2 ==> (#[trigger] self.levels@[b]).idx == w0.levels@[b].idx
                            && self.levels@[b].size == w0.levels@[b].size && self.levels@[b].wf()
                            && self.levels@[b].entities@.len() == w0.levels@[b].entities@.len(),
                    forall|b: int|
                        0 <= b < a2 ==> forall|id: Idx| #[trigger] (
                        #[trigger] self.levels@[b]).contains_id(id) == w0.levels@[b].contains_id(
                            id,
                        ),
                    forall|b: int, j: int|
                        0 <= b < a2 && 0 <= j < w0.levels@[b].entities@.len()
                            ==> #[trigger] self.levels@[b].entities@[j] == (Entity {
                            object: w0.levels@[b].entities@[j].object.spec_apply_sighting(
                                sightings@[b]@[j],
                            ),
                            ..w0.levels@[b].entities@[j]
                        }),
                    forall|b: int|
                        a2 as int + 1 <= b < self.levels@.len() ==> self.levels@[b] == w0.levels@[
                            b
                        ],
                    self.levels@[a2 as int].idx == w0.levels@[a2 as int].idx,
                    self.levels@[a2 as int].size == w0.levels@[a2 as int].size,
                    self.levels@[a2 as int].wf(),
                    self.levels@[a2 as int].entities@.len() == n,
                    forall|id: Idx| #[trigger] (#[trigger] self.levels@[a2 as int]).contains_id(id)
                        == w0.levels@[a2 as int].contains_id(id),
                    forall|j: int|
                        0 <= j < i2 ==> #[trigger] self.levels@[a2 as int].entities@[j] == (Entity {
                            object: w0.levels@[a2 as int].entities@[j].object.spec_apply_sighting(
                                sightings@[a2 as int]@[j],
                            ),
                            ..w0.levels@[a2 as int].entities@[j]
                        }),
                    forall|j: int|
                        i2 <= j < n ==> #[trigger] self.levels@[a2 as int].entities@[j]
                            == w0.levels@[a2 as int].entities@[j],
                decreases n - i2,
            {
                let s = sightings[a2][i2];
                let mut obj = self.levels[a2].entity_at(i2).object;
                obj.apply_sighting(s);
                self.levels[a2].set_entity_object(i2, obj);
                i2 = i2 + 1;
            }
            a2 = a2 + 1;
        }
        proof {
            assert forall|b: int, id2: Idx|
                0 <= b < w0.levels@.len() implies (#[trigger] self.levels@[b].contains_id(id2))
                == w0.levels@[b].contains_id(id2) by {}
            lemma_levels_keep_ids(w0, *self);
            assert forall|a: int, i: int| w0.slot_ok(a, i) implies exists|s: Option<(Idx, IPoint)>| #[trigger] sighting_step(
                w0.levels@[a].entities@[i],
                self.levels@[a].entities@[i],
                w0.levels@[a],
                s,
            ) by {
                let s0 = sightings@[a]@[i];
                assert(self.levels@[a].entities@[i] == (Entity {
                    object: w0.levels@[a].entities@[i].object.spec_apply_sighting(s0),
                    ..w0.levels@[a].entities@[i]
                }));
                assert(sighting_step(
                    w0.levels@[a].entities@[i],
                    self.levels@[a].entities@[i],
                    w0.levels@[a],
                    s0,
                ));
            }
        }
    }

    /// Let the entity plan one action and drain the resulting queue,
    /// last-in first-out: each popped action is executed against the
    /// world, and after each execution every entity re-runs its
    /// perception step. The emitted messages are returned.
    ///
    /// A missing entity id — the invoked one, or one a planned action
    /// names — aborts the turn with a `MissingEntity` failure; when the
    /// invoked entity exists and every id its plan can name exists, the
    /// turn is owed to succeed. A completed turn of a ready, self-acting
    /// entity does to the entity exactly what one planned action followed
    /// by one perception step does (`actor_turn_effect`), and leaves every
    /// other player entity's position and scheduling state untouched
    /// (`player_pres`).
    #[verifier::rlimit(100)]
    pub fn invoke_actions(&mut self, entity_idx: Idx) -> (r: Result<Vec<String>, EngineError>)
        requires
            old(self).wf(),
            old(self).all_can_charge(),
        ensures
            final(self).wf(),
            final(self).time == old(self).time,
            final(self).next_id == old(self).next_id,
            final(self).levels@.len() == old(self).levels@.len(),
            forall|a: int|
                0 <= a < old(self).levels@.len() ==> (#[trigger] final(self).levels@[a]).idx
                    == old(self).levels@[a].idx && final(self).levels@[a].size == old(self).levels@[a].size,
            forall|id: Idx| #[trigger] final(self).spec_has(id) == old(self).spec_has(id),
            !old(self).spec_has(entity_idx) ==> r == Result::<Vec<String>, EngineError>::Err(
                EngineError::MissingEntity(entity_idx),
            ),
            old(self).spec_has(entity_idx) && plan_targets_exist(*old(self), entity_idx) ==> r
                is Ok,
            match r {
                Ok(v) => v@.len() == 0,
                Err(e) => e matches EngineError::MissingEntity(_),
            },
            (match old(self).spec_lookup(entity_idx) {
                Some(e) => self_acting(e.object, entity_idx) && e.object.spec_cooldown() == 0,
                None => false,
            }) ==> player_pres(*old(self), *final(self), entity_idx) && final(self).all_can_charge()
                && (r is Ok ==> player_turn_effect(*old(self), *final(self), entity_idx)
                    && actor_turn_effect(*old(self), *final(self), entity_idx)),
    {
        let ghost w0 = *old(self);
        let mut effects = self.build_effects();
        let li = match self.find_level_of(entity_idx) {
            None => {
                return Err(EngineError::MissingEntity(entity_idx));
            },
            Some(li) => li,
        };
        let ei = match self.levels[li].find_entity(entity_idx) {
            None => {
                proof {
                    assert(false);
                }
                return Err(EngineError::MissingEntity(entity_idx));
            },
            Some(ei) => ei,
        };
        let e = self.levels[li].entity_at(ei);
        proof {
            lemma_lookup_unique(w0, entity_idx, li as int, ei as int);
        }
        let forget = e.object.plan_action(&self.levels[li], e.position, &mut effects);
        if forget {
            let mut obj = e.object;
            obj.forget_enemy();
            self.levels[li].set_entity_object(ei, obj);
        }
        let ghost wf_state = *self;
        let ghost planned = effects.actions@.last();
        let ghost gli = li as int;
        let ghost gei = ei as int;
        let ghost gforget = forget;
        proof {
            // the forget step only clears a remembered target
            assert forall|b: int, id2: Idx|
                0 <= b < w0.levels@.len() implies (#[trigger] self.levels@[b].contains_id(id2))
                == w0.levels@[b].contains_id(id2) by {
                if b != li as int {
                    assert(self.levels@[b] == w0.levels@[b]);
                }
            }
            lemma_levels_keep_ids(w0, *self);
            assert(self.wf());
            assert forall|a: int, i: int|
                self.slot_ok(a, i) implies (#[trigger] self.levels@[a].entities@[i]).object.can_charge()
                && self.levels@[a].entities@[i].position == w0.levels@[a].entities@[i].position
                && self.levels@[a].entities@[i].level == w0.levels@[a].entities@[i].level
                && self.levels@[a].entities@[i].object.spec_idx() == w0.levels@[
                a
            ].entities@[i].object.spec_idx() && self.levels@[a].entities@[i].object.spec_cooldown()
                == w0.levels@[a].entities@[i].object.spec_cooldown() && (match w0.levels@[
                a
            ].entities@[i].object {
                Object::Player(p) => p.idx != entity_idx ==> self.levels@[a].entities@[i].object
                    == Object::Player(p),
                _ => true,
            }) by {
                assert(w0.slot_ok(a, i));
                assert(w0.levels@[a].entities@[i].object.can_charge());
                if a != li as int || i != ei as int {
                    assert(self.levels@[a].entities@[i] == w0.levels@[a].entities@[i]);
                }
            }
            lemma_pres_pointwise(w0, wf_state, entity_idx);
            assert(self.all_can_charge());
            if gforget {
                assert(self.levels@[gli].entities@ == w0.levels@[gli].entities@.update(
                    gei,
                    Entity {
                        object: w0.levels@[gli].entities@[gei].object.spec_forget(),
                        ..w0.levels@[gli].entities@[gei]
                    },
                ));
            }
            if (match w0.spec_lookup(entity_idx) {
                Some(e2) => self_acting(e2.object, entity_idx) && e2.object.spec_cooldown() == 0,
                None => false,
            }) {
                assert(w0.levels@[li as int].entities@[ei as int].object.spec_cooldown() == 0);
                assert(self.levels@[li as int].entities@[ei as int].object.spec_cooldown() == 0);
                assert(self.levels@[li as int].entities@[ei as int].object.spec_idx()
                    == entity_idx);
                assert(self.slot_ok(li as int, ei as int));
                if effects.actions@.len() == 1 {
                    assert(e.object.spec_is_active());
                    assert(e.object.spec_plan_pushes(
                        w0.levels@[li as int],
                        e.position,
                        planned,
                        forget,
                    ));
                    assert(match planned {
                        Action::Attack { source, .. } => source == entity_idx,
                        Action::Walk { idx, .. } => idx == entity_idx,
                        Action::Wait { idx } => idx == entity_idx,
                    });
                    match e.object {
                        Object::Player(p) => {
                            assert(planned == p.action);
                            assert(!forget);
                            assert(self.levels == w0.levels);
                        },
                        _ => {},
                    }
                }
            }
        }
        while effects.actions.len() > 0
            invariant
                w0 == *old(self),
                w0.wf(),
                w0.all_can_charge(),
                w0.spec_has(entity_idx),
                self.wf(),
                self.time == w0.time,
                self.next_id == w0.next_id,
                self.levels@.len() == w0.levels@.len(),
                effects.actions@.len() <= 1,
                effects.messages@.len() == 0,
                forall|a: int|
                    0 <= a < w0.levels@.len() ==> (#[trigger] self.levels@[a]).idx == w0.levels@[
                        a
                    ].idx && self.levels@[a].size == w0.levels@[a].size,
                forall|id: Idx| #[trigger] self.spec_has(id) == w0.spec_has(id),
                effects.actions@.len() == 1 ==> *self == wf_state && self.all_can_charge()
                    && effects.actions@.last() == planned,
                effects.actions@.len() == 1 ==> (match w0.spec_lookup(entity_idx) {
                    Some(e) => 0 <= gli < w0.levels@.len() && w0.levels@[gli].contains_id(
                        entity_idx,
                    ) && e.object.spec_plan_pushes(
                        w0.levels@[gli],
                        e.position,
                        planned,
                        gforget,
                    ),
                    None => false,
                }),
                effects.actions@.len() == 1 ==> 0 <= gei < w0.levels@[gli].entities@.len()
                    && w0.levels@[gli].entities@[gei].object.spec_idx() == entity_idx && (gforget
                    ==> wf_state.levels@.len() == w0.levels@.len() && (forall|b: int|
                    0 <= b < w0.levels@.len() && b != gli ==> #[trigger] wf_state.levels@[b]
                        == w0.levels@[b]) && wf_state.levels@[gli].idx == w0.levels@[gli].idx
                    && wf_state.levels@[gli].size == w0.levels@[gli].size && wf_state.levels@[
                    gli
                ].entities@ == w0.levels@[gli].entities@.update(
                    gei,
                    Entity {
                        object: w0.levels@[gli].entities@[gei].object.spec_forget(),
                        ..w0.levels@[gli].entities@[gei]
                    },
                )) && (!gforget ==> wf_state.levels == w0.levels),
                (match w0.spec_lookup(entity_idx) {
                    Some(e) => self_acting(e.object, entity_idx) && e.object.spec_cooldown() == 0,
                    None => false,
                }) ==> player_pres(w0, *self, entity_idx) && self.all_can_charge() && (
                effects.actions@.len() == 1 ==> match planned {
                    Action::Attack { source, .. } => source == entity_idx,
                    Action::Walk { idx, .. } => idx == entity_idx,
                    Action::Wait { idx } => idx == entity_idx,
                } && (exists|a: int, i: int|
                    self.slot_ok(a, i) && (#[trigger] self.levels@[a].entities@[i]).object.spec_idx()
                        == entity_idx && self.levels@[a].entities@[i].object.spec_cooldown() == 0))
                    && (effects.actions@.len() == 1 ==> match w0.spec_lookup(
                    entity_idx,
                ).unwrap().object {
                    Object::Player(p) => planned == p.action && wf_state.levels == w0.levels,
                    _ => true,
                }) && (effects.actions@.len() == 0 ==> player_turn_effect(w0, *self, entity_idx)
                    && actor_turn_effect(w0, *self, entity_idx)),
            decreases effects.actions@.len(),
        {
            let action = match effects.actions.pop() {
                Some(a) => a,
                None => {
                    proof {
                        assert(false);
                    }
                    return Err(EngineError::MissingEntity(entity_idx));
                },
            };
            let ghost w_before = *self;
            let ghost ready = (match w0.spec_lookup(entity_idx) {
                Some(e) => self_acting(e.object, entity_idx) && e.object.spec_cooldown() == 0,
                None => false,
            });
            let result = self.execute_action(action);
            proof {
                if ready {
                    let wb = w_before;
                    let we = *self;
                    assert(wb.spec_has(entity_idx));
                    let (ra, ri) = choose|ra: int, ri: int|
                        wb.slot_ok(ra, ri) && (#[trigger] wb.levels@[ra].entities@[ri]).object.spec_idx()
                            == entity_idx && wb.levels@[ra].entities@[ri].object.spec_cooldown()
                            == 0;
                    match action {
                        Action::Wait { idx } => {
                            assert(idx == entity_idx);
                            assert forall|a: int, i: int|
                                #![trigger we.levels@[a].entities@[i]]
                                wb.slot_ok(a, i) implies {
                                let e = wb.levels@[a].entities@[i];
                                let e2 = we.levels@[a].entities@[i];
                                &&& e2.position == e.position
                                &&& e2.level == e.level
                                &&& e2.object.spec_idx() == e.object.spec_idx()
                                &&& e2.object.can_charge()
                                &&& (match e.object {
                                    Object::Player(p) => p.idx != entity_idx ==> e2.object
                                        == Object::Player(p),
                                    _ => true,
                                })
                            } by {
                                let e = wb.levels@[a].entities@[i];
                                assert(e.object.spec_execute(action).spec_idx()
                                    == e.object.spec_idx());
                                assert(e.object.can_charge());
                                assert(wb.levels@[a].wf());
                                assert(e.object.wf());
                                if e.object.spec_idx() == entity_idx {
                                    if a != ra {
                                        assert(wb.levels@[a].contains_id(entity_idx));
                                        assert(wb.levels@[ra].contains_id(entity_idx));
                                        assert(false);
                                    }
                                    if i != ri {
                                        assert(wb.levels@[a].entities@[i].object.spec_idx()
                                            != wb.levels@[a].entities@[ri].object.spec_idx());
                                        assert(false);
                                    }
                                    assert(e.object.spec_cooldown() == 0);
                                }
                            }
                            lemma_pres_pointwise(wb, we, entity_idx);
                            assert(we.all_can_charge());
                        },
                        Action::Attack { source, target } => {
                            assert(source == entity_idx);
                            if we != wb {
                                assert forall|a: int, i: int|
                                    #![trigger we.levels@[a].entities@[i]]
                                    wb.slot_ok(a, i) implies {
                                    let e = wb.levels@[a].entities@[i];
                                    let e2 = we.levels@[a].entities@[i];
                                    &&& e2.position == e.position
                                    &&& e2.level == e.level
                                    &&& e2.object.spec_idx() == e.object.spec_idx()
                                    &&& e2.object.can_charge()
                                    &&& (match e.object {
                                        Object::Player(p) => p.idx != entity_idx ==> (match e2.object {
                                            Object::Player(q) => q.idx == p.idx && q.cooldown
                                                == p.cooldown && q.wait_time == p.wait_time
                                                && q.action == p.action && q.wait_speed
                                                == p.wait_speed && q.walk_speed == p.walk_speed
                                                && q.attack_speed == p.attack_speed
                                                && q.range_tenths == p.range_tenths,
                                            _ => false,
                                        }),
                                        _ => true,
                                    })
                                } by {
                                    let e = wb.levels@[a].entities@[i];
                                    assert(e.object.spec_execute(action).spec_idx()
                                        == e.object.spec_idx());
                                    assert(e.object.spec_execute(action).spec_execute(
                                        action,
                                    ).spec_idx() == e.object.spec_idx());
                                    assert(e.object.can_charge());
                                    assert(wb.levels@[a].wf());
                                    assert(e.object.wf());
                                    if e.object.spec_idx() == entity_idx {
                                        if a != ra {
                                            assert(wb.levels@[a].contains_id(entity_idx));
                                            assert(wb.levels@[ra].contains_id(entity_idx));
                                            assert(false);
                                        }
                                        if i != ri {
                                            assert(wb.levels@[a].entities@[i].object.spec_idx()
                                                != wb.levels@[a].entities@[ri].object.spec_idx());
                                            assert(false);
                                        }
                                        assert(e.object.spec_cooldown() == 0);
                                    }
                                }
                                lemma_pres_pointwise(wb, we, entity_idx);
                                assert(we.all_can_charge());
                            } else {
                                lemma_pres_refl(wb, entity_idx);
                            }
                        },
                        Action::Walk { idx, position } => {
                            assert(idx == entity_idx);
                            if we != wb {
                                let la = choose|la: int|
                                    0 <= la < wb.levels@.len() && (
                                    #[trigger] wb.levels@[la]).contains_id(idx) && !spec_walk_blocked(
                                        wb.levels@[la],
                                        position,
                                    ) && (forall|b: int|
                                        0 <= b < wb.levels@.len() && b != la
                                            ==> #[trigger] we.levels@[b] == wb.levels@[b])
                                        && exists|i: int|
                                        0 <= i < wb.levels@[la].entities@.len() && (
                                        #[trigger] wb.levels@[la].entities@[i]).object.spec_idx()
                                            == idx && we.levels@[la].entities@ == wb.levels@[
                                            la
                                        ].entities@.remove(i).push(
                                            Entity {
                                                object: wb.levels@[
                                                    la
                                                ].entities@[i].object.spec_execute(action),
                                                level: wb.levels@[la].idx,
                                                position,
                                            },
                                        );
                                let i0 = choose|i: int|
                                    0 <= i < wb.levels@[la].entities@.len() && (
                                    #[trigger] wb.levels@[la].entities@[i]).object.spec_idx()
                                        == idx && we.levels@[la].entities@ == wb.levels@[
                                        la
                                    ].entities@.remove(i).push(
                                        Entity {
                                            object: wb.levels@[la].entities@[i].object.spec_execute(
                                                action,
                                            ),
                                            level: wb.levels@[la].idx,
                                            position,
                                        },
                                    );
                                let n = wb.levels@[la].entities@.len() - 1;
                                assert(la == ra && i0 == ri) by {
                                    if la != ra {
                                        assert(wb.levels@[la].contains_id(entity_idx));
                                        assert(wb.levels@[ra].contains_id(entity_idx));
                                    }
                                    if i0 != ri {
                                        assert(wb.levels@[la].entities@[i0].object.spec_idx()
                                            != wb.levels@[la].entities@[ri].object.spec_idx());
                                    }
                                }
                                assert forall|a: int, i: int, b: int, j: int|
                                    #![trigger wb.levels@[a].entities@[i], we.levels@[b].entities@[j]]
                                    wb.slot_ok(a, i) && we.slot_ok(b, j) implies match wb.levels@[
                                    a
                                ].entities@[i].object {
                                    Object::Player(p) => (p.idx != entity_idx && we.levels@[
                                        b
                                    ].entities@[j].object.spec_idx() == p.idx) ==> (we.levels@[
                                        b
                                    ].entities@[j].position == wb.levels@[a].entities@[i].position
                                        && we.levels@[b].entities@[j].level == wb.levels@[
                                        a
                                    ].entities@[i].level && match we.levels@[b].entities@[j].object {
                                        Object::Player(q) => q.idx == p.idx && q.cooldown
                                            == p.cooldown && q.wait_time == p.wait_time && q.action
                                            == p.action && q.wait_speed == p.wait_speed
                                            && q.walk_speed == p.walk_speed && q.attack_speed
                                            == p.attack_speed && q.range_tenths == p.range_tenths,
                                        _ => false,
                                    }),
                                    _ => true,
                                } by {
                                    match wb.levels@[a].entities@[i].object {
                                        Object::Player(p) => {
                                            if p.idx != entity_idx && we.levels@[
                                                b
                                            ].entities@[j].object.spec_idx() == p.idx {
                                                let oj = if b != la as int {
                                                    j
                                                } else if j < i0 {
                                                    j
                                                } else {
                                                    j + 1
                                                };
                                                if b == la as int && j == n {
                                                    assert(we.levels@[b].entities@[j].object.spec_idx()
                                                        == wb.levels@[
                                                        la
                                                    ].entities@[i0].object.spec_idx());
                                                    assert(false);
                                                }
                                                assert(we.levels@[b].entities@[j] == wb.levels@[
                                                    b
                                                ].entities@[oj]);
                                                assert(wb.levels@[b].entities@[oj].object.spec_idx()
                                                    == p.idx);
                                                if b != a {
                                                    assert(wb.levels@[a].contains_id(p.idx));
                                                    assert(wb.levels@[b].contains_id(p.idx));
                                                    assert(false);
                                                }
                                                if oj != i {
                                                    assert(wb.levels@[a].entities@[oj].object.spec_idx()
                                                        != wb.levels@[
                                                        a
                                                    ].entities@[i].object.spec_idx());
                                                    assert(false);
                                                }
                                            }
                                        },
                                        _ => {},
                                    }
                                }
                                assert(player_pres(wb, we, entity_idx));
                                assert forall|b: int, j: int|
                                    we.slot_ok(b, j) implies (#[trigger] we.levels@[b].entities@[
                                    j
                                ]).object.can_charge() by {
                                    let oj = if b != la as int {
                                        j
                                    } else if j < i0 {
                                        j
                                    } else {
                                        j + 1
                                    };
                                    if b == la as int && j == n {
                                        let e = wb.levels@[la].entities@[i0];
                                        assert(e.object.spec_cooldown() == 0);
                                        assert(e.object.can_charge());
                                        assert(wb.levels@[la].wf());
                                        assert(e.object.wf());
                                    } else {
                                        assert(we.levels@[b].entities@[j] == wb.levels@[
                                            b
                                        ].entities@[oj]);
                                        assert(wb.levels@[b].entities@[oj].object.can_charge());
                                    }
                                }
                                assert(we.all_can_charge());
                            } else {
                                lemma_pres_refl(wb, entity_idx);
                            }
                        },
                    }
                    lemma_pres_trans(w0, wb, we, entity_idx);
                }
            }
            match result {
                Err(err) => {
                    proof {
                        // a plan whose named ids all exist cannot fail
                        if w0.spec_has(entity_idx) && plan_targets_exist(w0, entity_idx) {
                            let e0 = w0.spec_lookup(entity_idx).unwrap();
                            match e0.object {
                                Object::Character(c) => {
                                    assert(crate::character::plan_matches(
                                        c,
                                        w0.levels@[gli],
                                        e0.position,
                                        action,
                                        gforget,
                                    ));
                                    match action {
                                        Action::Attack { source, target } => {
                                            assert(w_before.spec_has(target));
                                            assert(w_before.spec_has(source));
                                        },
                                        Action::Walk { idx, .. } => {
                                            assert(w_before.spec_has(idx));
                                        },
                                        Action::Wait { idx } => {
                                            assert(w_before.spec_has(idx));
                                        },
                                    }
                                },
                                Object::Player(p) => {
                                    assert(action == p.action);
                                    match action {
                                        Action::Attack { source, target } => {
                                            assert(w_before.spec_has(target));
                                            assert(w_before.spec_has(source));
                                        },
                                        Action::Walk { idx, .. } => {
                                            assert(w_before.spec_has(idx));
                                        },
                                        Action::Wait { idx } => {
                                            assert(w_before.spec_has(idx));
                                        },
                                    }
                                },
                                _ => {},
                            }
                            assert(false);
                        }
                    }
                    return Err(err);
                },
                Ok(()) => {},
            }
            let ghost w_exec = *self;
            self.perceive_all();
            proof {
                assert forall|a: int, i: int|
                    self.slot_ok(a, i) implies (#[trigger] self.levels@[a].entities@[i]).position
                    == w_exec.levels@[a].entities@[i].position && self.levels@[
                    a
                ].entities@[i].level == w_exec.levels@[a].entities@[i].level && self.levels@[
                    a
                ].entities@[i].object.spec_idx() == w_exec.levels@[
                    a
                ].entities@[i].object.spec_idx() && (w_exec.levels@[a].entities@[i].object.can_charge()
                    ==> self.levels@[a].entities@[i].object.can_charge()) && (match w_exec.levels@[
                    a
                ].entities@[i].object {
                    Object::Player(p) => self.levels@[a].entities@[i].object == Object::Player(p),
                    _ => true,
                }) by {
                    assert(w_exec.slot_ok(a, i));
                    let s = choose|s: Option<(Idx, IPoint)>|
                        #[trigger] sighting_step(
                            w_exec.levels@[a].entities@[i],
                            self.levels@[a].entities@[i],
                            w_exec.levels@[a],
                            s,
                        );
                    assert(self.levels@[a].entities@[i] == (Entity {
                        object: w_exec.levels@[a].entities@[i].object.spec_apply_sighting(s),
                        ..w_exec.levels@[a].entities@[i]
                    }));
                }
                if ready {
                    lemma_pres_pointwise(w_exec, *self, entity_idx);
                    lemma_pres_trans(w0, w_exec, *self, entity_idx);
                    assert(self.all_can_charge());
                    match w0.spec_lookup(entity_idx).unwrap().object {
                        Object::Player(_) => {
                            assert(w_before == wf_state);
                            assert(w_before.levels == w0.levels);
                            lemma_player_walk_effect(
                                w0,
                                w_before,
                                w_exec,
                                *self,
                                entity_idx,
                                action,
                            );
                        },
                        _ => {
                            assert(player_turn_effect(w0, *self, entity_idx));
                        },
                    }
                    assert(w_before == wf_state);
                    lemma_lookup_unique(w0, entity_idx, gli, gei);
                    lemma_actor_effect(
                        w0,
                        w_before,
                        w_exec,
                        *self,
                        entity_idx,
                        action,
                        gforget,
                        gli,
                        gei,
                    );
                }
            }
        }
        Ok(effects.messages)
    }

    /// Store `action` as what the player entity with this id will plan on
    /// its next turn. Reports whether a player entity with the id was
    /// found; nothing else changes.
    pub fn set_player_action(&mut self, id: Idx, action: Action) -> (r: bool)
        requires
            old(self).wf(),
            match action {
                Action::Attack { source, .. } => source == id,
                Action::Walk { idx, .. } => idx == id,
                Action::Wait { idx } => idx == id,
            },
        ensures
            final(self).wf(),
            old(self).same_shape(*final(self)),
            forall|a: int|
                0 <= a < old(self).levels@.len() ==> (#[trigger] final(self).levels@[a].entities@).len()
                    == old(self).levels@[a].entities@.len(),
            !r ==> *final(self) == *old(self) && (match old(self).spec_lookup(id) {
                Some(e) => !(e.object is Player),
                None => true,
            }),
            r ==> forall|a: int, i: int|
                old(self).slot_ok(a, i) ==> #[trigger] final(self).levels@[a].entities@[i] == ({
                    let e = old(self).levels@[a].entities@[i];
                    match e.object {
                        Object::Player(p) => if p.idx == id {
                            Entity { object: Object::Player(Player { action, ..p }), ..e }
                        } else {
                            e
                        },
                        _ => e,
                    }
                }),
            old(self).all_can_charge() ==> final(self).all_can_charge(),
    {
        let li = match self.find_level_of(id) {
            None => {
                return false;
            },
            Some(li) => li,
        };
        let ei = match self.levels[li].find_entity(id) {
            None => {
                proof {
                    assert(false);
                }
                return false;
            },
            Some(ei) => ei,
        };
        let e = self.levels[li].entity_at(ei);
        match e.object {
            Object::Player(p) => {
                let mut p2 = p;
                p2.set_action(action);
                self.levels[li].set_entity_object(ei, Object::Player(p2));
                proof {
                    let w0 = *old(self);
                    assert forall|a: int, i: int|
                        w0.slot_ok(a, i) implies #[trigger] self.levels@[a].entities@[i] == ({
                        let e2 = w0.levels@[a].entities@[i];
                        match e2.object {
                            Object::Player(q) => if q.idx == id {
                                Entity { object: Object::Player(Player { action, ..q }), ..e2 }
                            } else {
                                e2
                            },
                            _ => e2,
                        }
                    }) by {
                        if a == li as int && i != ei as int {
                            assert(w0.levels@[a].entities@[i].object.spec_idx() != w0.levels@[
                                a
                            ].entities@[ei as int].object.spec_idx());
                        }
                        if a != li as int {
                            assert(self.levels@[a] == w0.levels@[a]);
                            if w0.levels@[a].entities@[i].object.spec_idx() == id {
                                assert(w0.levels@[a].contains_id(id));
                                assert(w0.levels@[li as int].contains_id(id));
                                assert(false);
                            }
                        }
                    }
                    assert forall|b: int, id2: Idx|
                        0 <= b < w0.levels@.len() implies (#[trigger] self.levels@[b].contains_id(
                            id2,
                        )) == w0.levels@[b].contains_id(id2) by {
                        if b != li as int {
                            assert(self.levels@[b] == w0.levels@[b]);
                        }
                    }
                    lemma_levels_keep_ids(w0, *self);
                }
                true
            },
            _ => false,
        }
    }

    /// The level holding the entity with this id.
    pub fn get_entity_level(&self, id: Idx) -> (r: Option<&Level>)
        requires
            self.wf(),
        ensures
            match r {
                None => !self.spec_has(id),
                Some(l) => l.contains_id(id) && exists|a: int|
                    0 <= a < self.levels@.len() && self.levels@[a] == *l,
            },
    {
        match self.find_level_of(id) {
            None => None,
            Some(a) => Some(&self.levels[a]),
        }
    }
}

} // verus!
