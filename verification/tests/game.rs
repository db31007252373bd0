use gridworld::errors::EngineError;
use gridworld::foundation::GameState;
use gridworld::ipoint::IPoint;
use gridworld::object::{Color, Icon, Pixel};
use gridworld::pointset::PointSet;

fn open_floors(w: i32, h: i32) -> PointSet {
    let mut s = PointSet::new();
    let mut y = 0;
    while y < h {
        let mut x = 0;
        while x < w {
            s.insert(IPoint { x, y });
            x += 1;
        }
        y += 1;
    }
    s
}

fn floors_without(w: i32, h: i32, gone: &[IPoint]) -> PointSet {
    let mut s = PointSet::new();
    let mut y = 0;
    while y < h {
        let mut x = 0;
        while x < w {
            if !gone.iter().any(|q| q.x == x && q.y == y) {
                s.insert(IPoint { x, y });
            }
            x += 1;
        }
        y += 1;
    }
    s
}

fn player_position(gs: &GameState) -> IPoint {
    gs.game.get_entity(gs.player.player).unwrap().position
}

fn player_cooldown(gs: &GameState) -> i64 {
    gs.game.get_entity(gs.player.player).unwrap().object.get_cooldown()
}

#[test]
fn no_spawn_cell_is_refused() {
    let empty = PointSet::new();
    let r = GameState::new(IPoint { x: 4, y: 4 }, &empty);
    assert!(matches!(r, Err(EngineError::NoSpawnCell)));
}

#[test]
fn spawn_on_first_free_cell() {
    let floors = floors_without(3, 3, &[IPoint { x: 0, y: 0 }, IPoint { x: 1, y: 0 }]);
    let gs = GameState::new(IPoint { x: 3, y: 3 }, &floors).unwrap();
    assert_eq!(player_position(&gs), IPoint { x: 2, y: 0 });
}

#[test]
fn grid_builds_walls_and_floors() {
    // every cell holds exactly one terrain entity, wall iff not carved
    let wall = IPoint { x: 1, y: 1 };
    let floors = floors_without(3, 2, &[wall]);
    let gs = GameState::new(IPoint { x: 3, y: 2 }, &floors).unwrap();
    let level = &gs.game.levels()[0];
    assert_eq!(level.size(), IPoint { x: 3, y: 2 });
    // six terrain entities plus the player
    assert_eq!(level.entity_count(), 7);
    let mut y = 0;
    while y < 2 {
        let mut x = 0;
        while x < 3 {
            let p = IPoint { x, y };
            let tile = level.get_tile(p).unwrap();
            let occupants = if p == (IPoint { x: 0, y: 0 }) { 2 } else { 1 };
            assert_eq!(tile.len(), occupants, "cell {} {}", x, y);
            assert_eq!(
                tile[0].object.is_blocking(),
                p == wall,
                "blocking at {} {}",
                x,
                y
            );
            x += 1;
        }
        y += 1;
    }
}

#[test]
fn unknown_token_is_a_no_op() {
    let floors = open_floors(4, 4);
    let mut gs = GameState::new(IPoint { x: 4, y: 4 }, &floors).unwrap();
    let before = player_position(&gs);
    let t0 = gs.game.time;
    assert_eq!(gs.process_key("x"), Ok(false));
    assert_eq!(gs.process_key(""), Ok(false));
    assert_eq!(gs.process_key("ww"), Ok(false));
    assert_eq!(player_position(&gs), before);
    assert_eq!(gs.game.time, t0);
    assert_eq!(gs.get_messages(10).len(), 0);
}

#[test]
fn walking_moves_the_player() {
    let floors = open_floors(4, 4);
    let mut gs = GameState::new(IPoint { x: 4, y: 4 }, &floors).unwrap();
    let start = player_position(&gs);
    assert_eq!(start, IPoint { x: 0, y: 0 });
    assert_eq!(gs.process_key("d"), Ok(true));
    assert_eq!(player_position(&gs), IPoint { x: 1, y: 0 });
    gs.process_key("s").unwrap();
    assert_eq!(player_position(&gs), IPoint { x: 1, y: 1 });
    gs.process_key("a").unwrap();
    assert_eq!(player_position(&gs), IPoint { x: 0, y: 1 });
    gs.process_key("w").unwrap();
    assert_eq!(player_position(&gs), IPoint { x: 0, y: 0 });
    // each completed move charged the walk speed and waited it out
    assert_eq!(gs.game.time, 40);
}

#[test]
fn walk_into_wall_changes_nothing() {
    // the player stands beside a wall; walking into it is a defined no-op:
    // no movement, no cooldown charge, and nothing in the message log
    let wall = IPoint { x: 1, y: 0 };
    let floors = floors_without(3, 3, &[wall]);
    let mut gs = GameState::new(IPoint { x: 3, y: 3 }, &floors).unwrap();
    assert_eq!(player_position(&gs), IPoint { x: 0, y: 0 });
    let cd0 = player_cooldown(&gs);
    gs.process_key("d").unwrap();
    assert_eq!(player_position(&gs), IPoint { x: 0, y: 0 });
    assert_eq!(player_cooldown(&gs), cd0);
    assert_eq!(gs.get_messages(10).len(), 0);
    // walking off the board is dropped the same way
    gs.process_key("w").unwrap();
    assert_eq!(player_position(&gs), IPoint { x: 0, y: 0 });
    assert_eq!(player_cooldown(&gs), cd0);
}

#[test]
fn view_shows_live_room() {
    let floors = open_floors(3, 3);
    let gs = GameState::new(IPoint { x: 3, y: 3 }, &floors).unwrap();
    let view = gs.get_view();
    assert_eq!(view.size, IPoint { x: 3, y: 3 });
    // the player's cell renders the player, the rest render floor
    let at = |x: i32, y: i32| view.tiles.lookup(&IPoint { x, y });
    assert_eq!(at(0, 0), Some(Pixel(Icon::Player, Color(255, 255, 255))));
    assert_eq!(at(2, 2), Some(Pixel(Icon::Floor, Color(255, 255, 255))));
    assert_eq!(at(1, 1), Some(Pixel(Icon::Floor, Color(255, 255, 255))));
}

#[test]
fn do_move() {
    let floors = open_floors(60, 60);
    let mut state = GameState::new(IPoint { x: 60, y: 60 }, &floors).unwrap();
    state.get_view();
    state.process_key("a").unwrap();
    state.get_view();
    state.process_key("w").unwrap();
    state.get_view();
    state.process_key("s").unwrap();
    state.get_view();
}

#[test]
fn out_of_sight_cells_are_remembered_desaturated() {
    // a long corridor: after walking away, cells that fell out of sight
    // render from memory, desaturated
    let floors = open_floors(30, 1);
    let mut gs = GameState::new(IPoint { x: 30, y: 1 }, &floors).unwrap();
    assert_eq!(player_position(&gs), IPoint { x: 0, y: 0 });
    // prime the memory, then walk ten cells to the right
    gs.process_key("d").unwrap();
    let mut i = 0;
    while i < 9 {
        gs.process_key("d").unwrap();
        i += 1;
    }
    assert_eq!(player_position(&gs), IPoint { x: 10, y: 0 });
    let view = gs.get_view();
    let at = |x: i32| view.tiles.lookup(&IPoint { x, y: 0 });
    // the player's cell and nearby cells are live
    assert_eq!(at(10), Some(Pixel(Icon::Player, Color(255, 255, 255))));
    assert_eq!(at(5), Some(Pixel(Icon::Floor, Color(255, 255, 255))));
    // the corridor start is out of range but remembered, desaturated
    assert_eq!(at(0), Some(Pixel(Icon::Floor, Color(128, 128, 128))));
    assert_eq!(at(1), Some(Pixel(Icon::Floor, Color(128, 128, 128))));
    // far ahead was never seen at all
    assert_eq!(at(25), None);
}

#[test]
fn messages_tail() {
    let floors = open_floors(3, 3);
    let mut gs = GameState::new(IPoint { x: 3, y: 3 }, &floors).unwrap();
    gs.player.messages.push(String::from("one"));
    gs.player.messages.push(String::from("two"));
    gs.player.messages.push(String::from("three"));
    let tail = gs.get_messages(2);
    assert_eq!(tail.len(), 2);
    assert_eq!(tail[0], "two");
    assert_eq!(tail[1], "three");
    assert_eq!(gs.get_messages(0).len(), 0);
    assert_eq!(gs.get_messages(-3).len(), 0);
    assert_eq!(gs.get_messages(99).len(), 3);
}
