use gridworld::character::Character;
use gridworld::context::Action;
use gridworld::errors::EngineError;
use gridworld::floor::Floor;
use gridworld::ipoint::IPoint;
use gridworld::level::Level;
use gridworld::object::Object;
use gridworld::player::Player;
use gridworld::wall::Wall;
use gridworld::world::World;
use gridworld::object::{Color, Icon, Pixel};

/// A world with one `w` by `h` level: floors everywhere, walls on the
/// cells of `walls`. Terrain ids start at 100.
fn world_with_room(w: i32, h: i32, walls: &[IPoint]) -> World {
    let mut world = World::new();
    let mut level = Level::new(0, IPoint { x: w, y: h });
    let mut id = 100;
    let mut y = 0;
    while y < h {
        let mut x = 0;
        while x < w {
            let p = IPoint { x, y };
            let is_wall = walls.iter().any(|q| q.x == x && q.y == y);
            let r = if is_wall {
                level.add_entity(Object::Wall(Wall::new(id)), p)
            } else {
                level.add_entity(Object::Floor(Floor::new(id)), p)
            };
            assert!(r.is_ok());
            id += 1;
            x += 1;
        }
        y += 1;
    }
    world.add_level(level);
    world
}

fn add_player(world: &mut World, id: u32, pos: IPoint) {
    let mut level = world.remove_lvl(0).unwrap();
    let r = level.add_entity(Object::Player(Player::new(id)), pos);
    assert!(r.is_ok());
    world.add_level(level);
}

fn add_character(world: &mut World, c: Character, pos: IPoint) {
    let mut level = world.remove_lvl(0).unwrap();
    let r = level.add_entity(Object::Character(c), pos);
    assert!(r.is_ok());
    world.add_level(level);
}

fn entity_position(world: &World, id: u32) -> IPoint {
    world.get_entity(id).unwrap().position
}

fn entity_cooldown_parts(world: &World, id: u32) -> (i64, i64) {
    match world.get_entity(id).unwrap().object {
        Object::Character(c) => (c.cooldown, c.wait_time),
        Object::Player(p) => (p.cooldown, p.wait_time),
        _ => panic!("not an actor"),
    }
}

fn entity_health(world: &World, id: u32) -> i32 {
    match world.get_entity(id).unwrap().object {
        Object::Character(c) => c.health,
        Object::Player(p) => p.health,
        _ => panic!("not an actor"),
    }
}

#[test]
fn duplicate_entity_is_refused() {
    let mut level = Level::new(0, IPoint { x: 3, y: 3 });
    let r1 = level.add_entity(Object::Wall(Wall::new(7)), IPoint { x: 0, y: 0 });
    assert!(r1.is_ok());
    let r2 = level.add_entity(Object::Floor(Floor::new(7)), IPoint { x: 1, y: 1 });
    assert_eq!(r2, Err(EngineError::DuplicateEntity(7)));
    // nothing was added by the refused call
    assert_eq!(level.entity_count(), 1);
}

#[test]
fn remove_and_move_entities() {
    let mut level = Level::new(0, IPoint { x: 3, y: 3 });
    level.add_entity(Object::Floor(Floor::new(1)), IPoint { x: 0, y: 0 }).unwrap();
    level.add_entity(Object::Wall(Wall::new(2)), IPoint { x: 1, y: 0 }).unwrap();
    assert!(level.remove_entity(9).is_none());
    let e = level.remove_entity(1).unwrap();
    assert_eq!(e.object.get_idx(), 1);
    assert_eq!(level.entity_count(), 1);
    assert!(level.move_entity(2, IPoint { x: 2, y: 2 }));
    assert_eq!(level.get_position(2), Some(IPoint { x: 2, y: 2 }));
    assert!(!level.move_entity(1, IPoint { x: 0, y: 0 }));
}

#[test]
fn tile_queries() {
    let mut level = Level::new(0, IPoint { x: 2, y: 2 });
    level.add_entity(Object::Floor(Floor::new(1)), IPoint { x: 0, y: 0 }).unwrap();
    level.add_entity(Object::Wall(Wall::new(2)), IPoint { x: 0, y: 0 }).unwrap();
    // out of bounds gives an absent result, never a crash
    assert!(level.get_tile(IPoint { x: 5, y: 5 }).is_none());
    assert!(level.get_tile(IPoint { x: -1, y: 0 }).is_none());
    let tile = level.get_tile(IPoint { x: 0, y: 0 }).unwrap();
    assert_eq!(tile.len(), 2);
    assert!(Level::is_blocking(&tile));
    assert!(!Level::is_transparent(&tile));
    let empty = level.get_tile(IPoint { x: 1, y: 1 }).unwrap();
    assert!(empty.is_empty());
    assert!(!Level::is_blocking(&empty));
    assert!(Level::is_transparent(&empty));
}

#[test]
fn render_stacking() {
    let mut level = Level::new(0, IPoint { x: 2, y: 2 });
    level.add_entity(Object::Floor(Floor::new(1)), IPoint { x: 0, y: 0 }).unwrap();
    level.add_entity(Object::Player(Player::new(2)), IPoint { x: 0, y: 0 }).unwrap();
    let tile = level.get_tile(IPoint { x: 0, y: 0 }).unwrap();
    // the player outranks the floor
    assert_eq!(Level::build_pixel(&tile), Pixel(Icon::Player, Color(255, 255, 255)));
    // remembered pixels only show the environment, desaturated
    assert_eq!(Level::build_mem_pixel(&tile), Pixel(Icon::Floor, Color(128, 128, 128)));
    let bare = level.get_tile(IPoint { x: 1, y: 1 }).unwrap();
    assert_eq!(Level::build_pixel(&bare), Pixel(Icon::Empty, Color(255, 255, 255)));
}

#[test]
fn lapse_subtracts_global_minimum() {
    let mut world = world_with_room(4, 4, &[]);
    add_player(&mut world, 1, IPoint { x: 0, y: 0 });
    let mut chaser = Character::new(2, 1);
    chaser.cooldown = 7;
    chaser.wait_time = 3;
    add_character(&mut world, chaser, IPoint { x: 3, y: 3 });
    // charge the player so the character's counters set the minimum
    world.execute_action(Action::Walk { idx: 1, position: IPoint { x: 1, y: 0 } }).unwrap();
    assert_eq!(entity_cooldown_parts(&world, 1), (10, 0));
    let t0 = world.time;
    let ready = world.lapse_time();
    // the global minimum is the character's cooldown of 7
    assert_eq!(world.time, t0 + 7);
    assert_eq!(entity_cooldown_parts(&world, 1), (3, 0));
    assert_eq!(entity_cooldown_parts(&world, 2), (0, 0));
    assert_eq!(ready, Some(2));
    // a second lapse drains the remaining 0 and reports the character again
    let ready2 = world.lapse_time();
    assert_eq!(world.time, t0 + 7);
    assert_eq!(ready2, Some(2));
}

#[test]
fn walk_unblocked_moves_and_charges() {
    let mut world = world_with_room(4, 4, &[]);
    add_player(&mut world, 1, IPoint { x: 1, y: 1 });
    let before = entity_cooldown_parts(&world, 1);
    let r = world.execute_action(Action::Walk { idx: 1, position: IPoint { x: 2, y: 1 } });
    assert_eq!(r, Ok(()));
    assert_eq!(entity_position(&world, 1), IPoint { x: 2, y: 1 });
    // cooldown grows by exactly the walk speed of 10
    assert_eq!(entity_cooldown_parts(&world, 1), (before.0 + 10, before.1));
}

#[test]
fn walk_blocked_is_silently_dropped() {
    let wall_at = IPoint { x: 2, y: 1 };
    let mut world = world_with_room(4, 4, &[wall_at]);
    add_player(&mut world, 1, IPoint { x: 1, y: 1 });
    let before = entity_cooldown_parts(&world, 1);
    let r = world.execute_action(Action::Walk { idx: 1, position: wall_at });
    assert_eq!(r, Ok(()));
    // no movement and no cooldown charge
    assert_eq!(entity_position(&world, 1), IPoint { x: 1, y: 1 });
    assert_eq!(entity_cooldown_parts(&world, 1), before);
    // walking off the board is refused the same way
    let r2 = world.execute_action(Action::Walk { idx: 1, position: IPoint { x: -1, y: 1 } });
    assert_eq!(r2, Ok(()));
    assert_eq!(entity_position(&world, 1), IPoint { x: 1, y: 1 });
    assert_eq!(entity_cooldown_parts(&world, 1), before);
}

#[test]
fn attack_costs_one_health_and_charges_source() {
    let mut world = world_with_room(4, 4, &[]);
    add_player(&mut world, 1, IPoint { x: 0, y: 0 });
    add_character(&mut world, Character::new(2, 1), IPoint { x: 1, y: 0 });
    let health_before = entity_health(&world, 1);
    let (cd_before, _) = entity_cooldown_parts(&world, 2);
    let r = world.execute_action(Action::Attack { source: 2, target: 1 });
    assert_eq!(r, Ok(()));
    assert_eq!(entity_health(&world, 1), health_before - 1);
    assert_eq!(entity_cooldown_parts(&world, 2).0, cd_before + 10);
    // health is floored at zero
    let mut i = 0;
    while i < 20 {
        world.execute_action(Action::Attack { source: 2, target: 1 }).unwrap();
        i += 1;
    }
    assert_eq!(entity_health(&world, 1), 0);
}

#[test]
fn wait_charges_wait_time() {
    let mut world = world_with_room(4, 4, &[]);
    add_player(&mut world, 1, IPoint { x: 0, y: 0 });
    let r = world.execute_action(Action::Wait { idx: 1 });
    assert_eq!(r, Ok(()));
    // each wait charges the wait speed onto the accumulated wait time
    assert_eq!(entity_cooldown_parts(&world, 1), (0, 10));
    world.execute_action(Action::Wait { idx: 1 }).unwrap();
    assert_eq!(entity_cooldown_parts(&world, 1), (0, 20));
}

#[test]
fn missing_entity_aborts_turn() {
    let mut world = world_with_room(3, 3, &[]);
    add_player(&mut world, 1, IPoint { x: 0, y: 0 });
    let r = world.execute_action(Action::Attack { source: 1, target: 42 });
    assert_eq!(r, Err(EngineError::MissingEntity(42)));
    // the aborted turn changed nothing
    assert_eq!(entity_cooldown_parts(&world, 1), (0, 0));
    assert_eq!(entity_health(&world, 1), 10);
    let r2 = world.execute_action(Action::Walk { idx: 9, position: IPoint { x: 1, y: 0 } });
    assert_eq!(r2, Err(EngineError::MissingEntity(9)));
    let r3 = world.invoke_actions(3);
    assert_eq!(r3, Err(EngineError::MissingEntity(3)));
}

#[test]
fn character_chases_and_attacks() {
    let mut world = world_with_room(6, 3, &[]);
    add_player(&mut world, 1, IPoint { x: 0, y: 1 });
    let mut chaser = Character::new(2, 1);
    chaser.last_enemy = Some((1, IPoint { x: 0, y: 1 }));
    add_character(&mut world, chaser, IPoint { x: 4, y: 1 });
    // the chase steps one cell along the larger gap towards the hostile
    world.invoke_actions(2).unwrap();
    assert_eq!(entity_position(&world, 2), IPoint { x: 3, y: 1 });
    // adjacent at Manhattan distance one, the character attacks instead
    let mut world2 = world_with_room(6, 3, &[]);
    add_player(&mut world2, 1, IPoint { x: 0, y: 1 });
    let mut striker = Character::new(2, 1);
    striker.last_enemy = Some((1, IPoint { x: 0, y: 1 }));
    add_character(&mut world2, striker, IPoint { x: 1, y: 1 });
    let health_before = entity_health(&world2, 1);
    world2.invoke_actions(2).unwrap();
    assert_eq!(entity_health(&world2, 1), health_before - 1);
    assert_eq!(entity_position(&world2, 2), IPoint { x: 1, y: 1 });
}

#[test]
fn blocked_chase_forgets_target() {
    // the chaser's preferred step is blocked by a wall, so it forgets its
    // remembered hostile and waits
    let mut world = world_with_room(5, 3, &[IPoint { x: 2, y: 1 }]);
    add_player(&mut world, 1, IPoint { x: 0, y: 1 });
    let mut chaser = Character::new(2, 1);
    chaser.range_tenths = 0;  // cannot re-sight the hostile afterwards
    chaser.last_enemy = Some((1, IPoint { x: 0, y: 1 }));
    add_character(&mut world, chaser, IPoint { x: 3, y: 1 });
    world.invoke_actions(2).unwrap();
    assert_eq!(entity_position(&world, 2), IPoint { x: 3, y: 1 });
    match world.get_entity(2).unwrap().object {
        Object::Character(c) => {
            assert_eq!(c.last_enemy, None);
            assert_eq!(c.wait_time, 10);
        },
        _ => panic!("expected a character"),
    }
}

#[test]
fn random_walk_steps_to_free_neighbor() {
    // with no remembered hostile the character walks onto some free
    // orthogonal neighbor
    let mut world = world_with_room(5, 5, &[]);
    add_player(&mut world, 1, IPoint { x: 0, y: 0 });
    add_character(&mut world, Character::new(2, 1), IPoint { x: 2, y: 2 });
    world.invoke_actions(2).unwrap();
    let p = entity_position(&world, 2);
    let moved = [
        IPoint { x: 3, y: 2 },
        IPoint { x: 1, y: 2 },
        IPoint { x: 2, y: 3 },
        IPoint { x: 2, y: 1 },
    ];
    assert!(moved.iter().any(|q| *q == p));
    assert_eq!(entity_cooldown_parts(&world, 2).0, 10);
}

#[test]
fn walled_in_character_waits() {
    // every neighbor blocked: the character waits and is charged wait time
    let walls = [
        IPoint { x: 1, y: 0 },
        IPoint { x: 0, y: 1 },
        IPoint { x: 2, y: 1 },
        IPoint { x: 1, y: 2 },
    ];
    let mut world = world_with_room(3, 3, &walls);
    add_player(&mut world, 1, IPoint { x: 0, y: 0 });
    let mut loner = Character::new(2, 1);
    loner.range_tenths = 0;
    add_character(&mut world, loner, IPoint { x: 1, y: 1 });
    world.invoke_actions(2).unwrap();
    assert_eq!(entity_position(&world, 2), IPoint { x: 1, y: 1 });
    assert_eq!(entity_cooldown_parts(&world, 2), (0, 10));
}

#[test]
fn lapse_reports_nobody_when_nothing_can_act() {
    // dead characters never become ready: the scheduler finds no entity
    let mut world = world_with_room(3, 3, &[]);
    let mut corpse = Character::new(2, 1);
    corpse.health = 0;
    add_character(&mut world, corpse, IPoint { x: 1, y: 1 });
    assert_eq!(world.lapse_time(), None);
}

#[test]
fn chase_tie_steps_vertically() {
    // equal gaps on both axes: the chase steps along the vertical axis
    let mut world = world_with_room(6, 6, &[]);
    add_player(&mut world, 1, IPoint { x: 4, y: 4 });
    let mut chaser = Character::new(2, 1);
    chaser.last_enemy = Some((1, IPoint { x: 4, y: 4 }));
    add_character(&mut world, chaser, IPoint { x: 2, y: 2 });
    world.invoke_actions(2).unwrap();
    assert_eq!(entity_position(&world, 2), IPoint { x: 2, y: 3 });
}

#[test]
fn perception_remembers_visible_hostile() {
    let mut world = world_with_room(6, 3, &[]);
    add_player(&mut world, 1, IPoint { x: 0, y: 1 });
    add_character(&mut world, Character::new(2, 1), IPoint { x: 4, y: 1 });
    // the character acts once; the perception cascade afterwards sights
    // the hostile and remembers it
    world.invoke_actions(2).unwrap();
    match world.get_entity(2).unwrap().object {
        Object::Character(c) => {
            assert_eq!(c.last_enemy, Some((1, IPoint { x: 0, y: 1 })));
            assert_eq!(c.wait_time, 0);
        },
        _ => panic!("expected a character"),
    }
}

#[test]
fn perception_blocked_by_wall_keeps_memory_empty() {
    // a wall between the two: the hostile stays unseen
    let mut world = world_with_room(5, 3, &[IPoint { x: 2, y: 0 }, IPoint { x: 2, y: 1 }, IPoint {
        x: 2,
        y: 2,
    }]);
    add_player(&mut world, 1, IPoint { x: 0, y: 1 });
    add_character(&mut world, Character::new(2, 1), IPoint { x: 4, y: 1 });
    world.invoke_actions(2).unwrap();
    match world.get_entity(2).unwrap().object {
        Object::Character(c) => assert_eq!(c.last_enemy, None),
        _ => panic!("expected a character"),
    }
}
