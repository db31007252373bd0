use gridworld::ipoint::IPoint;
use gridworld::irange::IRange;
use gridworld::object::{Color, Icon, Pixel};
use gridworld::context::Action;
use gridworld::pointset::PointSet;
use gridworld::pixelmap::PixelMap;

#[test]
fn it_works() {
    assert_eq!(2 + 2, 4);
}

#[test]
fn point_ops() {
    let a = IPoint { x: 3, y: -2 };
    let b = IPoint { x: -1, y: 5 };
    assert_eq!(IPoint::zero(), IPoint { x: 0, y: 0 });
    assert_eq!(a.bottom(&b), IPoint { x: -1, y: -2 });
    assert_eq!(a.top(&b), IPoint { x: 3, y: 5 });
    assert_eq!(a.plus(b), IPoint { x: 2, y: 3 });
    assert_eq!(a.minus(b), IPoint { x: 4, y: -7 });
    assert_eq!(a.rdist(&b), 4 + 7);
    assert_eq!(a.dist2(&b), 16 + 49);
}

#[test]
fn range_ops() {
    let r = IPoint { x: 1, y: 1 }.range(IPoint { x: 4, y: 3 });
    assert_eq!(r.size(), IPoint { x: 3, y: 2 });
    assert!(r.inside(IPoint { x: 1, y: 1 }));
    assert!(r.inside(IPoint { x: 3, y: 2 }));
    assert!(!r.inside(IPoint { x: 4, y: 2 }));
    assert!(!r.inside(IPoint { x: 0, y: 1 }));
    assert_eq!(r.clip(IPoint { x: 9, y: 0 }), IPoint { x: 4, y: 1 });
    let s = IPoint { x: 2, y: 0 }.range(IPoint { x: 6, y: 9 });
    let i = r.intersect(s);
    assert_eq!(i.start, IPoint { x: 2, y: 1 });
    assert_eq!(i.end, IPoint { x: 4, y: 3 });
    let sq = IPoint { x: 5, y: 5 }.square_around(2);
    assert_eq!(sq.start, IPoint { x: 3, y: 3 });
    assert_eq!(sq.end, IPoint { x: 8, y: 8 });
    let z = IPoint { x: 2, y: 2 }.zrange();
    let mut it = z.iter();
    let mut seen = Vec::new();
    while let Some(p) = it.next() {
        seen.push(p);
    }
    assert_eq!(
        seen,
        vec![
            IPoint { x: 0, y: 0 },
            IPoint { x: 1, y: 0 },
            IPoint { x: 0, y: 1 },
            IPoint { x: 1, y: 1 }
        ]
    );
}

#[test]
fn range_rdist_separation() {
    let a = IPoint { x: 0, y: 0 }.range(IPoint { x: 2, y: 2 });
    let b = IPoint { x: 5, y: 0 }.range(IPoint { x: 7, y: 2 });
    // boxes three cells apart on x
    assert_eq!(a.rdist(b), 3);
    let c = IPoint { x: 1, y: 1 }.range(IPoint { x: 3, y: 3 });
    // overlapping boxes give a negative separation
    assert!(a.rdist(c) < 0);
}

#[test]
fn pixels() {
    assert_eq!(Pixel::empty(), Pixel(Icon::Empty, Color(255, 255, 255)));
    let p = Pixel(Icon::Wall, Color(255, 255, 255));
    assert_eq!(p.gray(), Pixel(Icon::Wall, Color(128, 128, 128)));
}

#[test]
fn action_actors() {
    let a = Action::Attack { source: 7, target: 9 };
    assert_eq!(a.actors(), vec![7, 9]);
    let w = Action::Walk { idx: 3, position: IPoint { x: 1, y: 1 } };
    assert_eq!(w.actors(), vec![3]);
    let t = Action::Wait { idx: 5 };
    assert_eq!(t.actors(), vec![5]);
}

#[test]
fn point_set() {
    let mut s = PointSet::new();
    assert_eq!(s.len(), 0);
    assert!(!s.contains(&IPoint { x: 1, y: 2 }));
    s.insert(IPoint { x: 1, y: 2 });
    s.insert(IPoint { x: 1, y: 2 });
    s.insert(IPoint { x: 3, y: 4 });
    assert_eq!(s.len(), 2);
    assert!(s.contains(&IPoint { x: 1, y: 2 }));
    assert!(s.contains(&IPoint { x: 3, y: 4 }));
    assert!(!s.contains(&IPoint { x: 4, y: 3 }));
}

#[test]
fn pixel_map() {
    let mut m = PixelMap::new();
    let p = IPoint { x: 2, y: 2 };
    assert_eq!(m.lookup(&p), None);
    m.set(p, Pixel(Icon::Floor, Color(255, 255, 255)));
    assert_eq!(m.lookup(&p), Some(Pixel(Icon::Floor, Color(255, 255, 255))));
    m.set(p, Pixel(Icon::Wall, Color(255, 255, 255)));
    assert_eq!(m.lookup(&p), Some(Pixel(Icon::Wall, Color(255, 255, 255))));
    m.merge_missing(p, Pixel(Icon::Empty, Color(255, 255, 255)));
    // an occupied key is not overwritten
    assert_eq!(m.lookup(&p), Some(Pixel(Icon::Wall, Color(255, 255, 255))));
    let q = IPoint { x: 5, y: 5 };
    m.merge_missing(q, Pixel(Icon::Player, Color(255, 255, 255)));
    assert_eq!(m.lookup(&q), Some(Pixel(Icon::Player, Color(255, 255, 255))));
}
