use gridworld::ipoint::IPoint;
use gridworld::pointset::PointSet;
use gridworld::visibility::{is_visible, visibility_set};

fn open_room(w: i32, h: i32) -> PointSet {
    let mut s = PointSet::new();
    let mut y = 0;
    while y < h {
        let mut x = 0;
        while x < w {
            s.insert(IPoint { x, y });
            x += 1;
        }
        y += 1;
    }
    s
}

fn remove_from(s: &PointSet, gone: IPoint) -> PointSet {
    let mut r = PointSet::new();
    let mut i = 0;
    while i < s.len() {
        let p = s.get(i);
        if p != gone {
            r.insert(p);
        }
        i += 1;
    }
    r
}

#[test]
fn origin_always_visible() {
    // even with every cell opaque, the origin itself is in the result
    let empty = PointSet::new();
    let size = IPoint { x: 5, y: 5 };
    let origin = IPoint { x: 2, y: 2 };
    let vis = visibility_set(&empty, size, origin, 30);
    assert!(vis.contains(&origin));
    // and with a clear room it still is
    let all = open_room(5, 5);
    let vis2 = visibility_set(&all, size, origin, 30);
    assert!(vis2.contains(&origin));
}

#[test]
fn full_room_equals_range_disc() {
    // a fully transparent room: exactly the in-bounds cells within
    // Euclidean distance of the origin are visible
    let size = IPoint { x: 7, y: 7 };
    let trans = open_room(7, 7);
    let origin = IPoint { x: 3, y: 3 };
    let range_tenths = 20;  // distance 2.0
    let vis = visibility_set(&trans, size, origin, range_tenths);
    let mut y = 0;
    while y < 7 {
        let mut x = 0;
        while x < 7 {
            let p = IPoint { x, y };
            let dx = (x - 3) as i64;
            let dy = (y - 3) as i64;
            let within = 100 * (dx * dx + dy * dy) <= (range_tenths as i64) * (range_tenths as i64);
            assert_eq!(vis.contains(&p), within);
            x += 1;
        }
        y += 1;
    }
}

#[test]
fn three_by_three_room_at_range_fifteen() {
    // a 3x3 fully open room seen from its center with range 1.5: all nine
    // cells are visible (the corners sit at distance sqrt(2))
    let size = IPoint { x: 3, y: 3 };
    let trans = open_room(3, 3);
    let origin = IPoint { x: 1, y: 1 };
    let vis = visibility_set(&trans, size, origin, 15);
    assert_eq!(vis.len(), 9);
    let mut y = 0;
    while y < 3 {
        let mut x = 0;
        while x < 3 {
            assert!(vis.contains(&IPoint { x, y }));
            x += 1;
        }
        y += 1;
    }
}

#[test]
fn deviated_ray_clears_corner() {
    // an opaque cell straight on the exact sightline does not block the
    // target when one of the four deviated rays slips past it
    let all = open_room(4, 3);
    let trans = remove_from(&all, IPoint { x: 1, y: 1 });
    let origin = IPoint { x: 0, y: 0 };
    // the exact ray to (2, 1) passes through the blocked (1, 1) (a tie
    // records (1, 0) and (1, 1) both), but the ray deviated downward
    // passes through (1, 0) alone
    assert!(is_visible(&trans, origin, IPoint { x: 2, y: 1 }));
}

#[test]
fn straight_wall_blocks() {
    // an opaque cell directly between origin and target on a straight
    // corridor blocks all five rays
    let size = IPoint { x: 4, y: 1 };
    let all = open_room(4, 1);
    let trans = remove_from(&all, IPoint { x: 1, y: 0 });
    let origin = IPoint { x: 0, y: 0 };
    assert!(!is_visible(&trans, origin, IPoint { x: 2, y: 0 }));
    assert!(!is_visible(&trans, origin, IPoint { x: 3, y: 0 }));
    let vis = visibility_set(&trans, size, origin, 40);
    assert!(vis.contains(&origin));
    assert!(vis.contains(&IPoint { x: 1, y: 0 }));
    assert!(!vis.contains(&IPoint { x: 2, y: 0 }));
    assert!(!vis.contains(&IPoint { x: 3, y: 0 }));
}

#[test]
fn opaque_origin_blocks_all_but_origin() {
    // every ray starts by recording the origin cell itself, so an opaque
    // origin sees nothing else
    let size = IPoint { x: 3, y: 3 };
    let all = open_room(3, 3);
    let trans = remove_from(&all, IPoint { x: 1, y: 1 });
    let origin = IPoint { x: 1, y: 1 };
    let vis = visibility_set(&trans, size, origin, 15);
    assert_eq!(vis.len(), 1);
    assert!(vis.contains(&origin));
}

#[test]
fn range_zero_sees_only_origin() {
    let size = IPoint { x: 5, y: 5 };
    let trans = open_room(5, 5);
    let origin = IPoint { x: 2, y: 2 };
    let vis = visibility_set(&trans, size, origin, 0);
    assert_eq!(vis.len(), 1);
    assert!(vis.contains(&origin));
}
