//! Line-of-sight oracle.
//!
//! Visibility is decided by tracing rays on the grid. A ray from `a` to `b`
//! steps along the dominant axis in unit increments of the normalized
//! direction and records the nearest cell at each step; when the position is
//! exactly halfway between two cells on an axis (residual exactly one half,
//! rounded away from zero), the cell one unit lower on that axis is recorded
//! as well, so a ray that crosses a corner exactly is blocked if either
//! straddling cell is opaque. To avoid false occlusion when a sightline
//! grazes a single blocking corner, five rays are traced per target: the
//! exact one, and four whose target is shifted by ±2/5 of a cell along one
//! axis. The target is visible if any of the five rays crosses only
//! transparent cells.
//!
//! All positions on a ray are rationals with denominator `m`, the scaled
//! dominant-axis length, so the tracer works in exact integer arithmetic:
//! the direction is scaled by 5 (the shifts become the integers ±2) and the
//! position at step `i` along an axis is `(a * m + i * d) / m`.

use vstd::prelude::*;
use vstd::arithmetic::div_mod::lemma_fundamental_div_mod;
use vstd::arithmetic::div_mod::lemma_mod_bound;
use crate::ipoint::IPoint;
use crate::ipoint::abs_int;
use crate::pointset::PointSet;
use crate::pointset::view_pt;

verus! {

/// The smaller of two integers.
pub open spec fn min2(a: int, b: int) -> int {
    if a <= b {
        a
    } else {
        b
    }
}

/// The larger of two integers.
pub open spec fn max2(a: int, b: int) -> int {
    if a >= b {
        a
    } else {
        b
    }
}

/// `num / den` rounded to the nearest integer, halves away from zero.
pub open spec fn rdiv(num: int, den: int) -> int
    recommends
        den > 0,
{
    if num >= 0 {
        (2 * num + den) / (2 * den)
    } else {
        -((2 * -num + den) / (2 * den))
    }
}

/// The rounded quotient is within half a unit of the true quotient:
/// `rdiv(num, den) * den` differs from `num` by at most `den / 2`, with the
/// excess of exactly `den / 2` taken on the away-from-zero side.
pub proof fn lemma_rdiv_bounds(num: int, den: int)
    requires
        den >= 1,
    ensures
        -den <= 2 * (rdiv(num, den) * den - num) <= den,
{
    if num >= 0 {
        let q = (2 * num + den) / (2 * den);
        let r = (2 * num + den) % (2 * den);
        lemma_fundamental_div_mod(2 * num + den, 2 * den);
        lemma_mod_bound(2 * num + den, 2 * den);
        assert(2 * num + den == 2 * den * q + r);
        assert(2 * (q * den - num) == den - r) by (nonlinear_arith)
            requires
                2 * num + den == 2 * den * q + r,
        ;
    } else {
        let q = (2 * -num + den) / (2 * den);
        let r = (2 * -num + den) % (2 * den);
        lemma_fundamental_div_mod(2 * -num + den, 2 * den);
        lemma_mod_bound(2 * -num + den, 2 * den);
        assert(2 * -num + den == 2 * den * q + r);
        assert(2 * (-q * den - num) == -(den - r)) by (nonlinear_arith)
            requires
                2 * -num + den == 2 * den * q + r,
        ;
    }
}

/// Nearest-integer division, halves away from zero, in executable code.
pub fn rdiv64(num: i64, den: i64) -> (r: i64)
    requires
        1 <= den <= 0x1000_0000,
        -0x1000_0000_0000_0000 <= num <= 0x1000_0000_0000_0000,
    ensures
        r == rdiv(num as int, den as int),
{
    if num >= 0 {
        let n: u64 = num as u64;
        let d: u64 = den as u64;
        let q: u64 = (2 * n + d) / (2 * d);
        proof {
            lemma_rdiv_small(num as int, den as int);
        }
        q as i64
    } else {
        let n: u64 = (-num) as u64;
        let d: u64 = den as u64;
        let q: u64 = (2 * n + d) / (2 * d);
        proof {
            lemma_rdiv_small(-num as int, den as int);
        }
        -(q as i64)
    }
}

/// How many cells a ray with scaled dominant length `m` records: the number
/// of unit steps until the rounded position reaches the rounded target.
///
/// Along the dominant axis the position moves exactly one cell per step,
/// and the rounded target lies `round(m / 5)` cells away on that axis, so
/// the rounded positions coincide with the rounded target first at step
/// `round(m / 5)`; cells are recorded for the steps before that. (On the
/// other axis the position then sits within half a cell of the target:
/// its rounded length differs from `m / 5` by at most `2 / 5` of a cell,
/// scaled down further by the axis ratio.)
pub open spec fn ray_steps(m: int) -> int {
    rdiv(m, 5)
}

/// The numerator of the position along one axis at step `i`: the position
/// itself is `(a * m + i * d) / m`.
pub open spec fn ray_num(a: int, d: int, m: int, i: int) -> int {
    a * m + i * d
}

/// The recorded cell along one axis at step `i`.
pub open spec fn cell_coord(a: int, d: int, m: int, i: int) -> int {
    rdiv(ray_num(a, d, m, i), m)
}

/// Whether the position at step `i` sits exactly halfway below the recorded
/// cell on this axis (the residual is exactly one half, rounded up and away
/// from zero); the cell one unit lower is then recorded as well.
pub open spec fn ray_tie(a: int, d: int, m: int, i: int) -> bool {
    2 * (cell_coord(a, d, m, i) * m - ray_num(a, d, m, i)) == m
}

/// Whether every cell the ray records at step `i` is transparent.
pub open spec fn step_clear(
    trans: Set<(int, int)>,
    ax: int,
    ay: int,
    dx: int,
    dy: int,
    m: int,
    i: int,
) -> bool {
    let cx = cell_coord(ax, dx, m, i);
    let cy = cell_coord(ay, dy, m, i);
    &&& trans.contains((cx, cy))
    &&& (ray_tie(ax, dx, m, i) ==> trans.contains((cx - 1, cy)))
    &&& (ray_tie(ay, dy, m, i) ==> trans.contains((cx, cy - 1)))
}

/// Whether every step of a ray with direction `(dx, dy)` and scaled
/// dominant length `m` records only transparent cells.
pub open spec fn ray_clear_parts(
    trans: Set<(int, int)>,
    ax: int,
    ay: int,
    dx: int,
    dy: int,
    m: int,
) -> bool {
    forall|i: int| 0 <= i < ray_steps(m) ==> step_clear(trans, ax, ay, dx, dy, m, i)
}

/// Whether the ray from `(ax, ay)` to the point scaled by 5 `(bx5, by5)`
/// crosses only transparent cells.
pub open spec fn ray_clear(trans: Set<(int, int)>, ax: int, ay: int, bx5: int, by5: int) -> bool {
    let dx = bx5 - 5 * ax;
    let dy = by5 - 5 * ay;
    ray_clear_parts(trans, ax, ay, dx, dy, max2(abs_int(dx), abs_int(dy)))
}

/// Whether `to` is visible from `from`: at least one of the five rays (the
/// exact one, and the four with the target shifted by ±2/5 of a cell along
/// one axis) is fully transparent.
pub open spec fn spec_visible_q(trans: Set<(int, int)>, from: IPoint, to: (int, int)) -> bool {
    let ax = from.x as int;
    let ay = from.y as int;
    ||| ray_clear(trans, ax, ay, 5 * to.0, 5 * to.1)
    ||| ray_clear(trans, ax, ay, 5 * to.0, 5 * to.1 + 2)
    ||| ray_clear(trans, ax, ay, 5 * to.0, 5 * to.1 - 2)
    ||| ray_clear(trans, ax, ay, 5 * to.0 + 2, 5 * to.1)
    ||| ray_clear(trans, ax, ay, 5 * to.0 - 2, 5 * to.1)
}

/// Whether `to` is visible from `from`.
pub open spec fn spec_visible(trans: Set<(int, int)>, from: IPoint, to: IPoint) -> bool {
    spec_visible_q(trans, from, view_pt(to))
}

/// Ten times any recorded step index is at most `2 * m - 5`: recorded steps
/// stop strictly before the position would pass the target.
proof fn lemma_step_index_bound(m: int, i: int)
    requires
        m >= 1,
        0 <= i < ray_steps(m),
    ensures
        10 * i <= 2 * m - 5,
{
    lemma_rdiv_bounds(m, 5);
    assert(2 * (ray_steps(m) * 5 - m) <= 5);
}

/// Every cell a ray records along one axis lies between the endpoints of
/// that axis, and so does the extra cell recorded on an exact tie.
///
/// The axis runs from `a` to `b`, the target is shifted by `s` fifths of a
/// cell, `d` is the scaled direction `5 * (b - a) + s`, and `m` is the
/// scaled dominant length of the whole ray, so `abs(d) <= m`.
proof fn lemma_cell_in_box(a: int, b: int, s: int, m: int, i: int)
    requires
        s == -2 || s == 0 || s == 2,
        m >= 1,
        abs_int(5 * (b - a) + s) <= m,
        0 <= i < ray_steps(m),
    ensures
        min2(a, b) <= cell_coord(a, 5 * (b - a) + s, m, i) <= max2(a, b),
        ray_tie(a, 5 * (b - a) + s, m, i) ==> min2(a, b) <= cell_coord(
            a,
            5 * (b - a) + s,
            m,
            i,
        ) - 1,
{
    let d = 5 * (b - a) + s;
    let num = ray_num(a, d, m, i);
    let cell = cell_coord(a, d, m, i);
    lemma_rdiv_bounds(num, m);
    lemma_step_index_bound(m, i);
    assert(-m <= 2 * (cell * m - num) <= m);
    assert(10 * i <= 2 * m - 5);
    if d >= 0 {
        assert(b >= a);
        // lower side: the position never drops below `a * m`
        assert(num >= a * m) by (nonlinear_arith)
            requires
                num == a * m + i * d,
                i >= 0,
                d >= 0,
        ;
        assert(cell >= a) by (nonlinear_arith)
            requires
                2 * (cell * m - num) >= -m,
                num >= a * m,
                m >= 1,
        ;
        // upper side
        assert(10 * num <= 10 * a * m + (2 * m - 5) * d) by (nonlinear_arith)
            requires
                num == a * m + i * d,
                10 * i <= 2 * m - 5,
                d >= 0,
        ;
        assert(cell <= b) by (nonlinear_arith)
            requires
                2 * (cell * m - num) <= m,
                10 * num <= 10 * a * m + (2 * m - 5) * d,
                d == 5 * (b - a) + s,
                s <= 2,
                d >= 0,
                m >= 1,
        ;
        if ray_tie(a, d, m, i) {
            assert(cell - 1 >= a) by (nonlinear_arith)
                requires
                    2 * (cell * m - num) == m,
                    num >= a * m,
                    m >= 1,
            ;
        }
    } else {
        assert(b <= a);
        // upper side: the position never rises above `a * m`
        assert(num <= a * m) by (nonlinear_arith)
            requires
                num == a * m + i * d,
                i >= 0,
                d < 0,
        ;
        assert(cell <= a) by (nonlinear_arith)
            requires
                2 * (cell * m - num) <= m,
                num <= a * m,
                m >= 1,
        ;
        // lower side
        assert(10 * num >= 10 * a * m + (2 * m - 5) * d) by (nonlinear_arith)
            requires
                num == a * m + i * d,
                10 * i <= 2 * m - 5,
                i >= 0,
                d < 0,
        ;
        assert(cell >= b && (2 * (cell * m - num) == m ==> cell - 1 >= b)) by (nonlinear_arith)
            requires
                2 * (cell * m - num) >= -m,
                10 * num >= 10 * a * m + (2 * m - 5) * d,
                d == 5 * (b - a) + s,
                s >= -2,
                d < 0,
                m >= 1,
        ;
    }
}

/// Trace one ray from `from` towards `to` with the target shifted by
/// `sx / 5` and `sy / 5` of a cell, and report whether every recorded cell
/// is transparent.
fn trace_ray(transparent: &PointSet, from: IPoint, to: IPoint, sx: i64, sy: i64) -> (r: bool)
    requires
        from.bounded(),
        to.bounded(),
        sx == 0 || sx == 2 || sx == -2,
        sy == 0 || sy == 2 || sy == -2,
    ensures
        r == ray_clear(
            transparent@,
            from.x as int,
            from.y as int,
            5 * to.x + sx,
            5 * to.y + sy,
        ),
{
    let ax: i64 = from.x as i64;
    let ay: i64 = from.y as i64;
    let dx: i64 = 5 * (to.x as i64 - ax) + sx;
    let dy: i64 = 5 * (to.y as i64 - ay) + sy;
    proof {
        assert(dx == (5 * to.x + sx) - 5 * (from.x as int));
        assert(dy == (5 * to.y + sy) - 5 * (from.y as int));
    }
    let adx: i64 = if dx < 0 {
        -dx
    } else {
        dx
    };
    let ady: i64 = if dy < 0 {
        -dy
    } else {
        dy
    };
    let m: i64 = if adx >= ady {
        adx
    } else {
        ady
    };
    proof {
        assert(m == max2(abs_int(dx as int), abs_int(dy as int)));
        assert(m <= 10485762);
    }
    if m == 0 {
        proof {
            assert(ray_steps(0) == 0);
            assert(ray_clear_parts(transparent@, ax as int, ay as int, dx as int, dy as int, 0));
        }
        return true;
    }
    let n: i64 = rdiv64(m, 5);
    let mut i: i64 = 0;
    while i < n
        invariant
            0 <= i <= n,
            n == ray_steps(m as int),
            1 <= m <= 10485762,
            m == max2(abs_int(dx as int), abs_int(dy as int)),
            abs_int(dx as int) <= m,
            abs_int(dy as int) <= m,
            ax == from.x as int,
            ay == from.y as int,
            from.bounded(),
            to.bounded(),
            sx == 0 || sx == 2 || sx == -2,
            sy == 0 || sy == 2 || sy == -2,
            dx == 5 * (to.x - from.x) + sx,
            dy == 5 * (to.y - from.y) + sy,
            forall|j: int|
                0 <= j < i ==> step_clear(
                    transparent@,
                    ax as int,
                    ay as int,
                    dx as int,
                    dy as int,
                    m as int,
                    j,
                ),
        decreases n - i,
    {
        proof {
            lemma_step_index_bound(m as int, i as int);
            assert(i * dx <= i * m && i * dx >= -(i * m) && i * dy <= i * m && i * dy >= -(i * m))
                by (nonlinear_arith)
                requires
                    0 <= i,
                    abs_int(dx as int) <= m,
                    abs_int(dy as int) <= m,
            ;
            assert(0 <= i * m <= 2200000 * 10485762) by (nonlinear_arith)
                requires
                    0 <= i <= 2200000,
                    1 <= m <= 10485762,
            ;
            assert(-1048576 * 10485762 <= ax * m <= 1048576 * 10485762) by (nonlinear_arith)
                requires
                    -1048576 <= ax <= 1048576,
                    1 <= m <= 10485762,
            ;
            assert(-1048576 * 10485762 <= ay * m <= 1048576 * 10485762) by (nonlinear_arith)
                requires
                    -1048576 <= ay <= 1048576,
                    1 <= m <= 10485762,
            ;
            lemma_cell_in_box(from.x as int, to.x as int, sx as int, m as int, i as int);
            lemma_cell_in_box(from.y as int, to.y as int, sy as int, m as int, i as int);
        }
        let numx: i64 = ax * m + i * dx;
        let numy: i64 = ay * m + i * dy;
        let cx: i64 = rdiv64(numx, m);
        let cy: i64 = rdiv64(numy, m);
        proof {
            assert(cx == cell_coord(ax as int, dx as int, m as int, i as int));
            assert(cy == cell_coord(ay as int, dy as int, m as int, i as int));
            assert(min2(from.x as int, to.x as int) <= cx <= max2(from.x as int, to.x as int));
            assert(min2(from.y as int, to.y as int) <= cy <= max2(from.y as int, to.y as int));
            assert(-1048576 * 10485762 <= cx * m <= 1048576 * 10485762) by (nonlinear_arith)
                requires
                    -1048576 <= cx <= 1048576,
                    1 <= m <= 10485762,
            ;
            assert(-1048576 * 10485762 <= cy * m <= 1048576 * 10485762) by (nonlinear_arith)
                requires
                    -1048576 <= cy <= 1048576,
                    1 <= m <= 10485762,
            ;
        }
        let cell = IPoint { x: cx as i32, y: cy as i32 };
        if !transparent.contains(&cell) {
            proof {
                assert(view_pt(cell) == (cx as int, cy as int));
                assert(!step_clear(
                    transparent@,
                    ax as int,
                    ay as int,
                    dx as int,
                    dy as int,
                    m as int,
                    i as int,
                ));
                assert(!ray_clear_parts(
                    transparent@,
                    ax as int,
                    ay as int,
                    dx as int,
                    dy as int,
                    m as int,
                ));
            }
            return false;
        }
        if 2 * (cx * m - numx) == m {
            let extra = IPoint { x: (cx - 1) as i32, y: cy as i32 };
            if !transparent.contains(&extra) {
                proof {
                    assert(ray_tie(ax as int, dx as int, m as int, i as int));
                    assert(!step_clear(
                        transparent@,
                        ax as int,
                        ay as int,
                        dx as int,
                        dy as int,
                        m as int,
                        i as int,
                    ));
                    assert(!ray_clear_parts(
                        transparent@,
                        ax as int,
                        ay as int,
                        dx as int,
                        dy as int,
                        m as int,
                    ));
                }
                return false;
            }
        }
        if 2 * (cy * m - numy) == m {
            let extra = IPoint { x: cx as i32, y: (cy - 1) as i32 };
            if !transparent.contains(&extra) {
                proof {
                    assert(ray_tie(ay as int, dy as int, m as int, i as int));
                    assert(!step_clear(
                        transparent@,
                        ax as int,
                        ay as int,
                        dx as int,
                        dy as int,
                        m as int,
                        i as int,
                    ));
                    assert(!ray_clear_parts(
                        transparent@,
                        ax as int,
                        ay as int,
                        dx as int,
                        dy as int,
                        m as int,
                    ));
                }
                return false;
            }
        }
        proof {
            assert(step_clear(
                transparent@,
                ax as int,
                ay as int,
                dx as int,
                dy as int,
                m as int,
                i as int,
            ));
        }
        i = i + 1;
    }
    proof {
        assert(ray_clear_parts(
            transparent@,
            ax as int,
            ay as int,
            dx as int,
            dy as int,
            m as int,
        ));
    }
    true
}

/// Whether `to` can be seen from `from` over the transparent cells: true
/// when at least one of the five rays towards `to` is fully transparent.
pub fn is_visible(transparent: &PointSet, from: IPoint, to: IPoint) -> (r: bool)
    requires
        from.bounded(),
        to.bounded(),
    ensures
        r == spec_visible(transparent@, from, to),
{
    if trace_ray(transparent, from, to, 0, 0) {
        return true;
    }
    if trace_ray(transparent, from, to, 0, DEV_FIFTHS) {
        return true;
    }
    if trace_ray(transparent, from, to, 0, -DEV_FIFTHS) {
        return true;
    }
    if trace_ray(transparent, from, to, DEV_FIFTHS, 0) {
        return true;
    }
    trace_ray(transparent, from, to, -DEV_FIFTHS, 0)
}

/// The origin is always part of the visible set, whatever the transparent
/// cells, the bounds and the range.
pub proof fn lemma_origin_always_visible(
    trans: Set<(int, int)>,
    size: IPoint,
    origin: IPoint,
    tenths: int,
)
    ensures
        spec_visibility(trans, size, origin, tenths).contains(view_pt(origin)),
{
}

/// The deviation of the four shifted sight rays, in fifths of a cell: each
/// shifted ray aims `2/5 = 0.4` of a cell beside the target.
pub const DEV_FIFTHS: i64 = 2;

/// Ceiling of `t / 10` for `t >= 0`: the sight radius in whole cells of a
/// range given in tenths.
pub open spec fn ceil_div10(t: int) -> int {
    (t + 9) / 10
}

/// Whether the coordinate pair `q` lies on a board of the given size.
pub open spec fn in_bounds_pt(size: IPoint, q: (int, int)) -> bool {
    0 <= q.0 < size.x && 0 <= q.1 < size.y
}

/// Squared Euclidean distance from `origin` to the coordinate pair `q`.
pub open spec fn dist2_q(origin: IPoint, q: (int, int)) -> int {
    (origin.x - q.0) * (origin.x - q.0) + (origin.y - q.1) * (origin.y - q.1)
}

/// Whether `q` lies within a sight range given in tenths of a cell:
/// `dist <= tenths / 10`, compared exactly on squares.
pub open spec fn within_range(origin: IPoint, q: (int, int), tenths: int) -> bool {
    100 * dist2_q(origin, q) <= tenths * tenths
}

/// Whether `q` is a candidate for visibility: inside the square of
/// half-width `ceil(range)` around the origin, clipped to the board.
pub open spec fn candidate_pt(origin: IPoint, tenths: int, size: IPoint, q: (int, int)) -> bool {
    &&& origin.x - ceil_div10(tenths) <= q.0 <= origin.x + ceil_div10(tenths)
    &&& origin.y - ceil_div10(tenths) <= q.1 <= origin.y + ceil_div10(tenths)
    &&& in_bounds_pt(size, q)
}

/// The set of cells visible from `origin`: every in-bounds candidate within
/// range that at least one of the five rays reaches, and always the origin
/// itself.
pub open spec fn spec_visibility(
    trans: Set<(int, int)>,
    size: IPoint,
    origin: IPoint,
    tenths: int,
) -> Set<(int, int)> {
    Set::new(
        |q: (int, int)|
            q == view_pt(origin) || (candidate_pt(origin, tenths, size, q) && within_range(
                origin,
                q,
                tenths,
            ) && spec_visible_q(trans, origin, q)),
    )
}

/// A ray over an entirely transparent box is clear: every cell it records
/// lies between its endpoints.
proof fn lemma_transparent_box_ray_clear(
    trans: Set<(int, int)>,
    from: IPoint,
    to: IPoint,
    sx: int,
    sy: int,
)
    requires
        sx == -2 || sx == 0 || sx == 2,
        sy == -2 || sy == 0 || sy == 2,
        forall|q: (int, int)|
            min2(from.x as int, to.x as int) <= q.0 <= max2(from.x as int, to.x as int) && min2(
                from.y as int,
                to.y as int,
            ) <= q.1 <= max2(from.y as int, to.y as int) ==> trans.contains(q),
    ensures
        ray_clear(trans, from.x as int, from.y as int, 5 * to.x + sx, 5 * to.y + sy),
{
    let ax = from.x as int;
    let ay = from.y as int;
    let dx = (5 * to.x + sx) - 5 * ax;
    let dy = (5 * to.y + sy) - 5 * ay;
    let m = max2(abs_int(dx), abs_int(dy));
    if m == 0 {
        assert(ray_steps(0) == 0);
        assert(ray_clear_parts(trans, ax, ay, dx, dy, m));
    } else {
        assert forall|i: int| 0 <= i < ray_steps(m) implies step_clear(
            trans,
            ax,
            ay,
            dx,
            dy,
            m,
            i,
        ) by {
            lemma_cell_in_box(from.x as int, to.x as int, sx, m, i);
            lemma_cell_in_box(from.y as int, to.y as int, sy, m, i);
            let cx = cell_coord(ax, dx, m, i);
            let cy = cell_coord(ay, dy, m, i);
            assert(trans.contains((cx, cy)));
            if ray_tie(ax, dx, m, i) {
                assert(trans.contains((cx - 1, cy)));
            }
            if ray_tie(ay, dy, m, i) {
                assert(trans.contains((cx, cy - 1)));
            }
        }
        assert(ray_clear_parts(trans, ax, ay, dx, dy, m));
    }
}

/// In a fully transparent bounded room, the visible set is exactly the set
/// of in-bounds points within Euclidean distance `tenths / 10` of the
/// origin: with nothing to block them, the rays reach every candidate, and
/// the candidate square holds the whole range disc.
pub proof fn lemma_full_transparency(
    trans: Set<(int, int)>,
    size: IPoint,
    origin: IPoint,
    tenths: int,
)
    requires
        1 <= size.x,
        1 <= size.y,
        0 <= origin.x < size.x,
        0 <= origin.y < size.y,
        0 <= tenths,
        forall|q: (int, int)| in_bounds_pt(size, q) ==> trans.contains(q),
    ensures
        spec_visibility(trans, size, origin, tenths) =~= Set::new(
            |q: (int, int)| in_bounds_pt(size, q) && within_range(origin, q, tenths),
        ),
{
    let lhs = spec_visibility(trans, size, origin, tenths);
    let rhs = Set::new(|q: (int, int)| in_bounds_pt(size, q) && within_range(origin, q, tenths));
    assert forall|q: (int, int)| lhs.contains(q) implies rhs.contains(q) by {
        if q == view_pt(origin) {
            assert(in_bounds_pt(size, q));
            assert(dist2_q(origin, q) == 0);
            assert(tenths * tenths >= 0) by (nonlinear_arith)
                requires
                    tenths >= 0,
            ;
        }
    }
    assert forall|q: (int, int)| rhs.contains(q) implies lhs.contains(q) by {
        lemma_range_inside_candidates(origin, q, tenths);
        let target = IPoint { x: q.0 as i32, y: q.1 as i32 };
        assert(target.x as int == q.0 && target.y as int == q.1);
        assert forall|c: (int, int)|
            min2(origin.x as int, target.x as int) <= c.0 <= max2(
                origin.x as int,
                target.x as int,
            ) && min2(origin.y as int, target.y as int) <= c.1 <= max2(
                origin.y as int,
                target.y as int,
            ) implies trans.contains(c) by {
            assert(in_bounds_pt(size, c));
        }
        lemma_transparent_box_ray_clear(trans, origin, target, 0, 0);
        assert(ray_clear(trans, origin.x as int, origin.y as int, 5 * q.0, 5 * q.1));
        assert(spec_visible_q(trans, origin, q));
    }
}

/// A point within a range of `tenths / 10` cells lies in the candidate
/// square of half-width `ceil(tenths / 10)` around the origin.
pub proof fn lemma_range_inside_candidates(origin: IPoint, q: (int, int), tenths: int)
    requires
        0 <= tenths,
        100 * dist2_q(origin, q) <= tenths * tenths,
    ensures
        origin.x - ceil_div10(tenths) <= q.0 <= origin.x + ceil_div10(tenths),
        origin.y - ceil_div10(tenths) <= q.1 <= origin.y + ceil_div10(tenths),
{
    let dx = origin.x - q.0;
    let dy = origin.y - q.1;
    assert(10 * abs_int(dx) <= tenths && 10 * abs_int(dy) <= tenths) by (nonlinear_arith)
        requires
            100 * (dx * dx + dy * dy) <= tenths * tenths,
            0 <= tenths,
            dx == origin.x - q.0,
            dy == origin.y - q.1,
    ;
    lemma_mul10_le_div(abs_int(dx), tenths);
    lemma_mul10_le_div(abs_int(dy), tenths);
}

/// `10 * k <= t` gives `k <= (t + 9) / 10`.
proof fn lemma_mul10_le_div(k: int, t: int)
    requires
        10 * k <= t,
        0 <= t,
    ensures
        k <= (t + 9) / 10,
{
    let u = (t + 9) / 10;
    let r = (t + 9) % 10;
    lemma_fundamental_div_mod(t + 9, 10);
    lemma_mod_bound(t + 9, 10);
    assert(t + 9 == 10 * u + r);
    assert(10 * k <= 10 * u + r - 9);
    assert(k <= u) by (nonlinear_arith)
        requires
            10 * k <= 10 * u + r - 9,
            0 <= r < 10,
    ;
}

/// Whether `q` passes every filter of the visibility scan: a candidate,
/// within range, and reached by a ray.
pub open spec fn kept_pt(
    trans: Set<(int, int)>,
    size: IPoint,
    origin: IPoint,
    tenths: int,
    q: (int, int),
) -> bool {
    candidate_pt(origin, tenths, size, q) && within_range(origin, q, tenths) && spec_visible_q(
        trans,
        origin,
        q,
    )
}

/// The kept points of the candidate box that a row-by-row scan has already
/// passed when it stands on column `x` of row `y`.
pub open spec fn scanned_set(
    trans: Set<(int, int)>,
    size: IPoint,
    origin: IPoint,
    tenths: int,
    x: int,
    y: int,
) -> Set<(int, int)> {
    Set::new(
        |q: (int, int)|
            kept_pt(trans, size, origin, tenths, q) && (q.1 < y || (q.1 == y && q.0 < x)),
    )
}

/// The set of cells visible from `origin` over the `transparent` cells of a
/// board of the given size, for a sight range given in tenths of a cell.
///
/// Candidates are the cells of the square of half-width `ceil(range)`
/// around the origin, clipped to the board; a candidate is kept when it is
/// within Euclidean range and one of the five rays reaches it. The origin
/// is always part of the result.
pub fn visibility_set(
    transparent: &PointSet,
    size: IPoint,
    origin: IPoint,
    sight_range_tenths: u32,
) -> (r: PointSet)
    requires
        1 <= size.x <= 100000,
        1 <= size.y <= 100000,
        -100000 <= origin.x <= 200000,
        -100000 <= origin.y <= 200000,
        sight_range_tenths <= 100000,
    ensures
        r.wf(),
        r@ == spec_visibility(transparent@, size, origin, sight_range_tenths as int),
        r@.contains(view_pt(origin)),
{
    let ghost t = sight_range_tenths as int;
    let radius: i32 = ((sight_range_tenths + 9) / 10) as i32;
    proof {
        assert(radius == ceil_div10(t));
        assert(0 <= radius <= 10001);
    }
    let square = origin.square_around(radius);
    let room = size.zrange();
    let cands = square.intersect(room);
    let mut result = PointSet::new();
    proof {
        assert(result@ =~= scanned_set(
            transparent@,
            size,
            origin,
            t,
            cands.start.x as int,
            cands.start.y as int,
        ));
    }
    let mut y: i32 = cands.start.y;
    while y < cands.end.y
        invariant
            1 <= size.x <= 100000,
            1 <= size.y <= 100000,
            -100000 <= origin.x <= 200000,
            -100000 <= origin.y <= 200000,
            sight_range_tenths <= 100000,
            t == sight_range_tenths as int,
            0 <= cands.start.x,
            0 <= cands.start.y <= y,
            cands.end.x <= size.x,
            cands.end.y <= size.y,
            y <= cands.end.y || y == cands.start.y,
            forall|q: (int, int)|
                #[trigger] candidate_pt(origin, t, size, q) == (cands.start.x <= q.0 < cands.end.x
                    && cands.start.y <= q.1 < cands.end.y),
            result.wf(),
            result@ == scanned_set(transparent@, size, origin, t, cands.start.x as int, y as int),
        decreases cands.end.y - y,
    {
        let mut x: i32 = cands.start.x;
        while x < cands.end.x
            invariant
                1 <= size.x <= 100000,
                1 <= size.y <= 100000,
                -100000 <= origin.x <= 200000,
                -100000 <= origin.y <= 200000,
                sight_range_tenths <= 100000,
                t == sight_range_tenths as int,
                0 <= cands.start.x <= x,
                0 <= cands.start.y <= y < cands.end.y,
                cands.end.x <= size.x,
                cands.end.y <= size.y,
                x <= cands.end.x || x == cands.start.x,
                forall|q: (int, int)|
                    #[trigger] candidate_pt(origin, t, size, q) == (cands.start.x <= q.0
                        < cands.end.x && cands.start.y <= q.1 < cands.end.y),
                result.wf(),
                result@ == scanned_set(transparent@, size, origin, t, x as int, y as int),
            decreases cands.end.x - x,
        {
            let p = IPoint { x, y };
            proof {
                assert(p.bounded());
                assert(origin.bounded());
                assert(view_pt(p) == (x as int, y as int));
            }
            let d2: i64 = origin.dist2(&p);
            proof {
                assert(0 <= d2 <= 200000000000i64) by (nonlinear_arith)
                    requires
                        d2 == (origin.x - p.x) * (origin.x - p.x) + (origin.y - p.y) * (origin.y
                            - p.y),
                        -300000 <= origin.x - p.x <= 300000,
                        -300000 <= origin.y - p.y <= 300000,
                ;
            }
            let tt: i64 = sight_range_tenths as i64;
            proof {
                assert(0 <= tt * tt <= 10000000000i64) by (nonlinear_arith)
                    requires
                        0 <= tt <= 100000,
                ;
            }
            if 100 * d2 <= tt * tt && is_visible(transparent, origin, p) {
                result.insert(p);
                proof {
                    assert(kept_pt(transparent@, size, origin, t, view_pt(p)));
                    assert(result@ =~= scanned_set(
                        transparent@,
                        size,
                        origin,
                        t,
                        x as int + 1,
                        y as int,
                    ));
                }
            } else {
                proof {
                    assert(!kept_pt(transparent@, size, origin, t, view_pt(p)));
                    assert(result@ =~= scanned_set(
                        transparent@,
                        size,
                        origin,
                        t,
                        x as int + 1,
                        y as int,
                    ));
                }
            }
            x = x + 1;
        }
        proof {
            assert(result@ =~= scanned_set(
                transparent@,
                size,
                origin,
                t,
                cands.start.x as int,
                y as int + 1,
            ));
        }
        y = y + 1;
    }
    proof {
        assert forall|q: (int, int)|
            kept_pt(transparent@, size, origin, t, q) implies result@.contains(q) by {
            assert(candidate_pt(origin, t, size, q));
        }
    }
    result.insert(origin);
    proof {
        assert(result@ =~= spec_visibility(transparent@, size, origin, t));
    }
    result
}

/// The rounded quotient of bounded non-negative values stays bounded.
proof fn lemma_rdiv_small(num: int, den: int)
    requires
        den >= 1,
        0 <= num,
    ensures
        0 <= (2 * num + den) / (2 * den) <= num,
        (2 * num + den) / (2 * den) == rdiv(num, den),
{
    let q = (2 * num + den) / (2 * den);
    let r = (2 * num + den) % (2 * den);
    lemma_fundamental_div_mod(2 * num + den, 2 * den);
    lemma_mod_bound(2 * num + den, 2 * den);
    assert(q >= 0 && q <= num) by (nonlinear_arith)
        requires
            2 * num + den == 2 * den * q + r,
            0 <= r < 2 * den,
            den >= 1,
            num >= 0,
    ;
}

} // verus!
