//! Rectangles, circles and discs built from lines and points.
use vstd::prelude::*;

use crate::draw::{
    canvas_ok, frame_becomes, frame_painted, lemma_paint_nothing, paint_point, painted, rect_points,
};
use crate::line::{abs, draw_line_on_frame, in_i32, line_fits, line_points, line_points_from, line_span_ok, step_toward};
use crate::shp::SHP;

verus! {

/// Painting twice in one colour is painting the union once.
pub proof fn lemma_paint_twice(
    px: Seq<u8>,
    w: int,
    h: int,
    a: Set<(int, int)>,
    b: Set<(int, int)>,
    color: u8,
)
    ensures
        painted(painted(px, w, h, a, color), w, h, b, color) == painted(px, w, h, a.union(b), color),
{
    assert(painted(painted(px, w, h, a, color), w, h, b, color) =~= painted(
        px,
        w,
        h,
        a.union(b),
        color,
    ));
}

/// The outline of the rectangle from `(lx, ty)` to `(rx, by)`: its top,
/// bottom, left and right lines.
pub open spec fn rect_outline_points(lx: int, ty: int, rx: int, by: int) -> Set<(int, int)> {
    line_points(lx, ty, rx, ty).union(line_points(lx, by, rx, by)).union(
        line_points(lx, ty, lx, by),
    ).union(line_points(rx, ty, rx, by))
}

/// The points of the rectangle from `(lx, ty)` to `(rx, by)` that lie on
/// one of its four sides.
pub open spec fn rect_border(lx: int, ty: int, rx: int, by: int) -> Set<(int, int)> {
    Set::new(
        |p: (int, int)|
            rect_points(lx, ty, rx, by).contains(p) && (p.0 == lx || p.0 == rx || p.1 == ty || p.1
                == by),
    )
}

/// A horizontal line covers every point between its ends.
proof fn lemma_horizontal_from(x: int, x1: int, y: int, dx: int, sy: int, fuel: nat, x0: int)
    requires
        x0 <= x <= x1,
        dx == x1 - x0,
        fuel >= x1 - x,
    ensures
        line_points_from(x, y, dx, x1, y, dx, 0, step_toward(x0, x1), sy, fuel) == Set::new(
            |p: (int, int)| x <= p.0 <= x1 && p.1 == y,
        ),
    decreases fuel,
{
    if x == x1 {
        assert(set![(x, y)] =~= Set::new(|p: (int, int)| x <= p.0 <= x1 && p.1 == y));
    } else {
        assert(2 * dx > dx);
        lemma_horizontal_from(x + 1, x1, y, dx, sy, (fuel - 1) as nat, x0);
        assert(Set::new(|p: (int, int)| x + 1 <= p.0 <= x1 && p.1 == y).insert((x, y)) =~= Set::new(
            |p: (int, int)| x <= p.0 <= x1 && p.1 == y,
        ));
    }
}

/// A vertical line covers every point between its ends.
proof fn lemma_vertical_from(y: int, y1: int, x: int, bb: int, sx: int, fuel: nat, y0: int)
    requires
        y0 <= y <= y1,
        bb == y1 - y0,
        fuel >= y1 - y,
    ensures
        line_points_from(x, y, -bb, x, y1, 0, -bb, sx, step_toward(y0, y1), fuel) == Set::new(
            |p: (int, int)| p.0 == x && y <= p.1 <= y1,
        ),
    decreases fuel,
{
    if y == y1 {
        assert(set![(x, y)] =~= Set::new(|p: (int, int)| p.0 == x && y <= p.1 <= y1));
    } else {
        lemma_vertical_from(y + 1, y1, x, bb, sx, (fuel - 1) as nat, y0);
        assert(Set::new(|p: (int, int)| p.0 == x && y + 1 <= p.1 <= y1).insert((x, y)) =~= Set::new(
            |p: (int, int)| p.0 == x && y <= p.1 <= y1,
        ));
    }
}

/// The outline drawn for a rectangle is exactly its border.
pub proof fn lemma_rect_outline_is_border(lx: int, ty: int, rx: int, by: int)
    requires
        lx <= rx,
        ty <= by,
    ensures
        rect_outline_points(lx, ty, rx, by) == rect_border(lx, ty, rx, by),
{
    lemma_horizontal_from(lx, rx, ty, rx - lx, step_toward(ty, ty), (rx - lx) as nat, lx);
    lemma_horizontal_from(lx, rx, by, rx - lx, step_toward(by, by), (rx - lx) as nat, lx);
    lemma_vertical_from(ty, by, lx, by - ty, step_toward(lx, lx), (by - ty) as nat, ty);
    lemma_vertical_from(ty, by, rx, by - ty, step_toward(rx, rx), (by - ty) as nat, ty);
    assert(abs(rx - lx) == rx - lx);
    assert(abs(by - ty) == by - ty);
    assert(-abs(ty - ty) == 0);
    assert(abs(lx - lx) == 0);
    assert(rect_outline_points(lx, ty, rx, by) =~= rect_border(lx, ty, rx, by));
}

/// Drawing the four sides of the rectangle with corners `(x0, y0)` and
/// `(x1, y1)` computes only `i32` values.
pub open spec fn rect_fits(x0: int, y0: int, x1: int, y1: int) -> bool {
    let (lx, rx) = if x0 <= x1 {
        (x0, x1)
    } else {
        (x1, x0)
    };
    let (ty, by) = if y0 <= y1 {
        (y0, y1)
    } else {
        (y1, y0)
    };
    &&& line_span_ok(lx, ty, rx, ty)
    &&& line_span_ok(lx, by, rx, by)
    &&& line_span_ok(lx, ty, lx, by)
    &&& line_span_ok(rx, ty, rx, by)
}

/// Draws the outline of the rectangle with corners `(x0, y0)` and
/// `(x1, y1)` (in any order).
pub fn draw_rect_on_frame(shp: &mut SHP, fi: usize, x0: i32, y0: i32, x1: i32, y1: i32, color: u8)
    requires
        canvas_ok(*old(shp), fi as int),
        rect_fits(x0 as int, y0 as int, x1 as int, y1 as int),
    ensures
        ({
            let (lx, rx) = if x0 <= x1 {
                (x0 as int, x1 as int)
            } else {
                (x1 as int, x0 as int)
            };
            let (ty, by) = if y0 <= y1 {
                (y0 as int, y1 as int)
            } else {
                (y1 as int, y0 as int)
            };
            fi < old(shp).frames@.len() ==> frame_becomes(
                *old(shp),
                *final(shp),
                fi as int,
                frame_painted(*old(shp), fi as int, rect_outline_points(lx, ty, rx, by), color),
            )
        }),
        fi >= old(shp).frames@.len() ==> *final(shp) == *old(shp),
{
    let (lx, rx) = if x0 <= x1 {
        (x0, x1)
    } else {
        (x1, x0)
    };
    let (ty, by) = if y0 <= y1 {
        (y0, y1)
    } else {
        (y1, y0)
    };
    let ghost orig = *shp;
    let ghost px = orig.frames@[fi as int].pixels@;
    let ghost w = orig.width as int;
    let ghost h = orig.height as int;
    let ghost l1 = line_points(lx as int, ty as int, rx as int, ty as int);
    let ghost l2 = line_points(lx as int, by as int, rx as int, by as int);
    let ghost l3 = line_points(lx as int, ty as int, lx as int, by as int);
    let ghost l4 = line_points(rx as int, ty as int, rx as int, by as int);
    draw_line_on_frame(shp, fi, lx, ty, rx, ty, color);
    draw_line_on_frame(shp, fi, lx, by, rx, by, color);
    draw_line_on_frame(shp, fi, lx, ty, lx, by, color);
    draw_line_on_frame(shp, fi, rx, ty, rx, by, color);
    proof {
        if fi < orig.frames@.len() {
            lemma_paint_twice(px, w, h, l1, l2, color);
            lemma_paint_twice(px, w, h, l1.union(l2), l3, color);
            lemma_paint_twice(px, w, h, l1.union(l2).union(l3), l4, color);
        }
    }
}

/// The eight points symmetric to `(x, y)` around the centre `(cx, cy)`.
pub open spec fn octant_points(cx: int, cy: int, x: int, y: int) -> Set<(int, int)> {
    set![
        (cx + x, cy + y),
        (cx + y, cy + x),
        (cx - y, cy + x),
        (cx - x, cy + y),
        (cx - x, cy - y),
        (cx - y, cy - x),
        (cx + y, cy - x),
        (cx + x, cy - y),
    ]
}

/// One step of the midpoint circle algorithm.
pub open spec fn circle_step(x: int, y: int, err: int) -> (int, int, int) {
    let y2 = y + 1;
    if err < 0 {
        (x, y2, err + 2 * y2 + 1)
    } else {
        (x - 1, y2, err + 2 * (y2 - (x - 1)) + 1)
    }
}

/// The points the midpoint algorithm plots from state `(x, y, err)` on,
/// while `x >= y`.
pub open spec fn circle_points_from(cx: int, cy: int, x: int, y: int, err: int) -> Set<(int, int)>
    decreases x - y + 2,
{
    if x < y {
        Set::empty()
    } else {
        let (nx, ny, ne) = circle_step(x, y, err);
        octant_points(cx, cy, x, y).union(circle_points_from(cx, cy, nx, ny, ne))
    }
}

/// The outline of the circle of radius `r` around `(cx, cy)`: nothing for
/// a radius that is not positive.
pub open spec fn circle_points(cx: int, cy: int, r: int) -> Set<(int, int)> {
    if r <= 0 {
        Set::empty()
    } else {
        circle_points_from(cx, cy, r, 0, 1 - r)
    }
}

/// The mirror images of `p` about the centre `(cx, cy)`: across the
/// vertical line, across the horizontal line, and across the diagonal.
pub open spec fn circle_mirrors_in(pts: Set<(int, int)>, cx: int, cy: int, p: (int, int)) -> bool {
    &&& pts.contains((2 * cx - p.0, p.1))
    &&& pts.contains((p.0, 2 * cy - p.1))
    &&& pts.contains((cx + (p.1 - cy), cy + (p.0 - cx)))
}

proof fn lemma_octant_mirrors(cx: int, cy: int, x: int, y: int, p: (int, int))
    requires
        octant_points(cx, cy, x, y).contains(p),
    ensures
        circle_mirrors_in(octant_points(cx, cy, x, y), cx, cy, p),
{
}

proof fn lemma_circle_from_mirrors(cx: int, cy: int, x: int, y: int, err: int)
    ensures
        forall|p: (int, int)| #[trigger]
            circle_points_from(cx, cy, x, y, err).contains(p) ==> circle_mirrors_in(
                circle_points_from(cx, cy, x, y, err),
                cx,
                cy,
                p,
            ),
    decreases x - y + 2,
{
    if x >= y {
        let (nx, ny, ne) = circle_step(x, y, err);
        lemma_circle_from_mirrors(cx, cy, nx, ny, ne);
        let here = octant_points(cx, cy, x, y);
        let rest = circle_points_from(cx, cy, nx, ny, ne);
        assert(circle_points_from(cx, cy, x, y, err) == here.union(rest));
        assert forall|p: (int, int)| #[trigger] here.union(rest).contains(p) implies circle_mirrors_in(
            here.union(rest),
            cx,
            cy,
            p,
        ) by {
            if here.contains(p) {
                lemma_octant_mirrors(cx, cy, x, y, p);
            } else {
                assert(rest.contains(p));
                assert(circle_mirrors_in(rest, cx, cy, p));
            }
        }
    }
}

/// A circle outline is symmetric about its centre: with every point it
/// holds the point mirrored across the vertical line through the centre,
/// across the horizontal line, and across the diagonal (`(cx + a, cy + b)`
/// and `(cx + b, cy + a)`).
pub proof fn lemma_circle_symmetric(cx: int, cy: int, r: int)
    ensures
        forall|p: (int, int)| #[trigger]
            circle_points(cx, cy, r).contains(p) ==> circle_mirrors_in(
                circle_points(cx, cy, r),
                cx,
                cy,
                p,
            ),
{
    if r > 0 {
        lemma_circle_from_mirrors(cx, cy, r, 0, 1 - r);
    }
}

/// A circle outline of positive radius `r` passes through the four points
/// `r` away from the centre along the axes.
pub proof fn lemma_circle_reaches_radius(cx: int, cy: int, r: int)
    requires
        r > 0,
    ensures
        circle_points(cx, cy, r).contains((cx + r, cy)),
        circle_points(cx, cy, r).contains((cx - r, cy)),
        circle_points(cx, cy, r).contains((cx, cy + r)),
        circle_points(cx, cy, r).contains((cx, cy - r)),
{
    assert(octant_points(cx, cy, r, 0).contains((cx + r, cy + 0)));
    assert(octant_points(cx, cy, r, 0).contains((cx - r, cy + 0)));
    assert(octant_points(cx, cy, r, 0).contains((cx + 0, cy + r)));
    assert(octant_points(cx, cy, r, 0).contains((cx + 0, cy - r)));
}

/// The squared distance of `p` from `(cx, cy)`.
pub open spec fn dist2(cx: int, cy: int, p: (int, int)) -> int {
    (p.0 - cx) * (p.0 - cx) + (p.1 - cy) * (p.1 - cy)
}

proof fn lemma_octant_dist(cx: int, cy: int, x: int, y: int, p: (int, int))
    requires
        octant_points(cx, cy, x, y).contains(p),
    ensures
        dist2(cx, cy, p) == x * x + y * y,
{
    assert((-x) * (-x) == x * x) by (nonlinear_arith);
    assert((-y) * (-y) == y * y) by (nonlinear_arith);
    assert(x * x + y * y == y * y + x * x);
}

proof fn lemma_circle_from_near(cx: int, cy: int, r: int, x: int, y: int, err: int)
    requires
        err == x * x - x + y * y + 2 * y + 1 - r * r,
        0 <= y,
        x <= r,
        x >= y ==> -2 * x + 2 * y + 1 <= err <= 2 * y,
    ensures
        forall|p: (int, int)| #[trigger]
            circle_points_from(cx, cy, x, y, err).contains(p) ==> r * r - r <= dist2(cx, cy, p)
                <= r * r + r - 1,
    decreases x - y + 2,
{
    if x >= y {
        let (nx, ny, ne) = circle_step(x, y, err);
        if err < 0 {
            assert(ne == nx * nx - nx + ny * ny + 2 * ny + 1 - r * r) by (nonlinear_arith)
                requires
                    err == x * x - x + y * y + 2 * y + 1 - r * r,
                    nx == x,
                    ny == y + 1,
                    ne == err + 2 * ny + 1,
            ;
        } else {
            assert(ne == nx * nx - nx + ny * ny + 2 * ny + 1 - r * r) by (nonlinear_arith)
                requires
                    err == x * x - x + y * y + 2 * y + 1 - r * r,
                    nx == x - 1,
                    ny == y + 1,
                    ne == err + 2 * (ny - nx) + 1,
            ;
        }
        lemma_circle_from_near(cx, cy, r, nx, ny, ne);
        let here = octant_points(cx, cy, x, y);
        let rest = circle_points_from(cx, cy, nx, ny, ne);
        assert(circle_points_from(cx, cy, x, y, err) == here.union(rest));
        assert forall|p: (int, int)| #[trigger] here.union(rest).contains(p) implies r * r - r
            <= dist2(cx, cy, p) <= r * r + r - 1 by {
            if here.contains(p) {
                lemma_octant_dist(cx, cy, x, y, p);
                assert(x * x <= r * r) by (nonlinear_arith)
                    requires
                        0 <= y <= x <= r,
                ;
            } else {
                assert(rest.contains(p));
            }
        }
    }
}

/// Every point of a circle outline of radius `r >= 1` lies at squared
/// distance between `r * r - r` and `r * r + r - 1` from the centre, so
/// strictly closer than `r + 1` and no closer than `r - 1`.
pub proof fn lemma_circle_near_radius(cx: int, cy: int, r: int)
    requires
        r >= 1,
    ensures
        forall|p: (int, int)| #[trigger]
            circle_points(cx, cy, r).contains(p) ==> r * r - r <= dist2(cx, cy, p) <= r * r + r
                - 1,
{
    assert(1 - r == r * r - r + 0 * 0 + 2 * 0 + 1 - r * r);
    lemma_circle_from_near(cx, cy, r, r, 0, 1 - r);
}

/// One round of the midpoint algorithm at state `(x, y, err)` computes only
/// `i32` values: the coordinates of its eight points, the next `y` and `x`,
/// and the terms of the error update.
pub open spec fn circle_step_fits(cx: int, cy: int, x: int, y: int, err: int) -> bool {
    let y2 = y + 1;
    &&& in_i32(cx + x) && in_i32(cx - x) && in_i32(cx + y) && in_i32(cx - y)
    &&& in_i32(cy + x) && in_i32(cy - x) && in_i32(cy + y) && in_i32(cy - y)
    &&& in_i32(y2)
    &&& if err < 0 {
        in_i32(2 * y2) && in_i32(2 * y2 + 1) && in_i32(err + 2 * y2 + 1)
    } else {
        let t = y2 - (x - 1);
        in_i32(t) && in_i32(2 * t) && in_i32(2 * t + 1) && in_i32(err + 2 * t + 1)
    }
}

/// Every round of the midpoint algorithm from `(x, y, err)` on computes
/// only `i32` values.
pub open spec fn circle_fits_from(cx: int, cy: int, x: int, y: int, err: int) -> bool
    decreases x - y + 2,
{
    if x < y {
        true
    } else {
        let (nx, ny, ne) = circle_step(x, y, err);
        circle_step_fits(cx, cy, x, y, err) && circle_fits_from(cx, cy, nx, ny, ne)
    }
}

/// Drawing the outline of the circle of radius `r` around `(cx, cy)`
/// computes only `i32` values.
pub open spec fn circle_fits(cx: int, cy: int, r: int) -> bool {
    r <= 0 || (in_i32(1 - r) && circle_fits_from(cx, cy, r, 0, 1 - r))
}

/// Filling the disc of radius `r` around `(cx, cy)` computes only `i32`
/// values: its rows and columns run from the centre minus `r` to the centre
/// plus `r`.
pub open spec fn disc_fits(cx: int, cy: int, r: int) -> bool {
    r <= 0 || (in_i32(cx - r) && in_i32(cx + r) && in_i32(cy - r) && in_i32(cy + r))
}

/// Whether drawing the outline of the circle of radius `r` around
/// `(cx, cy)` computes only `i32` values (see `circle_fits`): the
/// algorithm's arithmetic, replayed in `i64`.
pub fn circle_fits_check(cx: i32, cy: i32, r: i32) -> (ok: bool)
    ensures
        ok == circle_fits(cx as int, cy as int, r as int),
{
    if r <= 0 {
        return true;
    }
    let cxl: i64 = cx as i64;
    let cyl: i64 = cy as i64;
    let mut x: i64 = r as i64;
    let mut y: i64 = 0;
    let mut err: i64 = 1 - x;
    while x >= y
        invariant
            0 < r,
            -1 <= x <= r,
            0 <= y <= r + 1,
            cxl == cx,
            cyl == cy,
            in_i32(err as int),
            circle_fits(cx as int, cy as int, r as int) == circle_fits_from(
                cx as int,
                cy as int,
                x as int,
                y as int,
                err as int,
            ),
        decreases x - y + 2,
    {
        let y2 = y + 1;
        let fits_points = in_i32_exec(cxl + x) && in_i32_exec(cxl - x) && in_i32_exec(cxl + y)
            && in_i32_exec(cxl - y) && in_i32_exec(cyl + x) && in_i32_exec(cyl - x) && in_i32_exec(
            cyl + y,
        ) && in_i32_exec(cyl - y) && in_i32_exec(y2);
        if !fits_points {
            assert(!circle_step_fits(cx as int, cy as int, x as int, y as int, err as int));
            return false;
        }
        if err < 0 {
            if !(in_i32_exec(2 * y2) && in_i32_exec(2 * y2 + 1) && in_i32_exec(err + 2 * y2 + 1)) {
                assert(!circle_step_fits(cx as int, cy as int, x as int, y as int, err as int));
                return false;
            }
            err = err + 2 * y2 + 1;
        } else {
            let t = y2 - (x - 1);
            if !(in_i32_exec(t) && in_i32_exec(2 * t) && in_i32_exec(2 * t + 1) && in_i32_exec(
                err + 2 * t + 1,
            )) {
                return false;
            }
            x = x - 1;
            err = err + 2 * t + 1;
        }
        y = y2;
    }
    true
}

/// Whether drawing the outline of the rectangle with corners `(x0, y0)`
/// and `(x1, y1)` computes only `i32` values (see `rect_fits`).
pub fn rect_fits_check(x0: i32, y0: i32, x1: i32, y1: i32) -> (ok: bool)
    ensures
        ok == rect_fits(x0 as int, y0 as int, x1 as int, y1 as int),
{
    let (lx, rx) = if x0 <= x1 {
        (x0, x1)
    } else {
        (x1, x0)
    };
    let (ty, by) = if y0 <= y1 {
        (y0, y1)
    } else {
        (y1, y0)
    };
    line_fits(lx, ty, rx, ty) && line_fits(lx, by, rx, by) && line_fits(lx, ty, lx, by) && line_fits(
        rx,
        ty,
        rx,
        by,
    )
}

/// Whether filling the disc of radius `r` around `(cx, cy)` computes only
/// `i32` values (see `disc_fits`).
pub fn disc_fits_check(cx: i32, cy: i32, r: i32) -> (ok: bool)
    ensures
        ok == disc_fits(cx as int, cy as int, r as int),
{
    if r <= 0 {
        return true;
    }
    let (cxl, cyl, rl) = (cx as i64, cy as i64, r as i64);
    in_i32_exec(cxl - rl) && in_i32_exec(cxl + rl) && in_i32_exec(cyl - rl) && in_i32_exec(cyl + rl)
}

/// Whether stamping the brush of width `size` at `(cx, cy)` computes only
/// `i32` values (what `stamp_disc_on_frame` asks).
pub fn stamp_fits_check(cx: i32, cy: i32, size: u32) -> (ok: bool)
    ensures
        ok == (size != 0x8000_0000 && (size > 1 ==> disc_fits(cx as int, cy as int, brush_radius(size)))),
{
    if size == 0x8000_0000 {
        return false;
    }
    if size <= 1 {
        return true;
    }
    let s = #[verifier::truncate] (size as i32);
    assert(size != 0x8000_0000u32 ==> (size as i32) != i32::MIN) by (bit_vector);
    let r0 = (s - 1) / 2;
    let r = if r0 >= 1 {
        r0
    } else {
        1
    };
    disc_fits_check(cx, cy, r)
}

/// Whether `v` is an `i32` value.
fn in_i32_exec(v: i64) -> (r: bool)
    ensures
        r == in_i32(v as int),
{
    -2147483648i64 <= v && v <= 2147483647
}

/// Draws the outline of the circle of radius `radius` around `(cx, cy)`
/// (midpoint algorithm); nothing for a radius that is not positive.
pub fn draw_circle_on_frame(shp: &mut SHP, fi: usize, cx: i32, cy: i32, radius: i32, color: u8)
    requires
        canvas_ok(*old(shp), fi as int),
        circle_fits(cx as int, cy as int, radius as int),
    ensures
        fi < old(shp).frames@.len() ==> frame_becomes(
            *old(shp),
            *final(shp),
            fi as int,
            frame_painted(
                *old(shp),
                fi as int,
                circle_points(cx as int, cy as int, radius as int),
                color,
            ),
        ),
        fi >= old(shp).frames@.len() ==> *final(shp) == *old(shp),
{
    if fi >= shp.frames.len() {
        return;
    }
    let ghost orig = *shp;
    proof {
        lemma_paint_nothing(
            orig.frames@[fi as int].pixels@,
            orig.width as int,
            orig.height as int,
            color,
        );
    }
    if radius <= 0 {
        return;
    }
    let ghost all = circle_points(cx as int, cy as int, radius as int);
    let ghost mut done: Set<(int, int)> = Set::empty();
    let mut x: i32 = radius;
    let mut y: i32 = 0;
    let mut err: i32 = 1 - x;
    assert(done.union(circle_points_from(cx as int, cy as int, x as int, y as int, err as int))
        =~= all);
    while x >= y
        invariant
            fi < shp.frames@.len(),
            canvas_ok(*shp, fi as int),
            shp.width == orig.width,
            shp.height == orig.height,
            orig.frames@.len() == shp.frames@.len(),
            orig.frames@[fi as int].pixels@.len() == shp.frames@[fi as int].pixels@.len(),
            circle_fits_from(cx as int, cy as int, x as int, y as int, err as int),
            0 < radius,
            -1 <= x <= radius,
            0 <= y <= radius + 1,
            y <= x + 2,
            -2 * radius + 1 <= err,
            x >= y ==> err <= 2 * y + 1,
            done.union(circle_points_from(cx as int, cy as int, x as int, y as int, err as int))
                == all,
            frame_becomes(orig, *shp, fi as int, frame_painted(orig, fi as int, done, color)),
        decreases x - y + 2,
    {
        let ghost d0 = done;
        paint_point(shp, fi, cx + x, cy + y, color, Ghost(orig), Ghost(d0));
        let ghost d1 = d0.insert(((cx + x) as int, (cy + y) as int));
        paint_point(shp, fi, cx + y, cy + x, color, Ghost(orig), Ghost(d1));
        let ghost d2 = d1.insert(((cx + y) as int, (cy + x) as int));
        paint_point(shp, fi, cx - y, cy + x, color, Ghost(orig), Ghost(d2));
        let ghost d3 = d2.insert(((cx - y) as int, (cy + x) as int));
        paint_point(shp, fi, cx - x, cy + y, color, Ghost(orig), Ghost(d3));
        let ghost d4 = d3.insert(((cx - x) as int, (cy + y) as int));
        paint_point(shp, fi, cx - x, cy - y, color, Ghost(orig), Ghost(d4));
        let ghost d5 = d4.insert(((cx - x) as int, (cy - y) as int));
        paint_point(shp, fi, cx - y, cy - x, color, Ghost(orig), Ghost(d5));
        let ghost d6 = d5.insert(((cx - y) as int, (cy - x) as int));
        paint_point(shp, fi, cx + y, cy - x, color, Ghost(orig), Ghost(d6));
        let ghost d7 = d6.insert(((cx + y) as int, (cy - x) as int));
        paint_point(shp, fi, cx + x, cy - y, color, Ghost(orig), Ghost(d7));
        let ghost d8 = d7.insert(((cx + x) as int, (cy - y) as int));
        proof {
            assert(d8 =~= d0.union(octant_points(cx as int, cy as int, x as int, y as int)));
            done = d8;
        }
        let ghost (ox, oy, oe) = (x as int, y as int, err as int);
        y = y + 1;
        if err < 0 {
            err += 2 * y + 1;
        } else {
            x -= 1;
            err += 2 * (y - x) + 1;
        }
        proof {
            assert((x as int, y as int, err as int) == circle_step(ox, oy, oe));
            assert(done.union(circle_points_from(cx as int, cy as int, x as int, y as int, err as int))
                =~= all);
        }
    }
    proof {
        assert(done =~= all);
    }
}

/// The points of the disc of radius `r` around `(cx, cy)`: nothing for a
/// radius that is not positive.
pub open spec fn disc_points(cx: int, cy: int, r: int) -> Set<(int, int)> {
    Set::new(
        |p: (int, int)|
            r > 0 && (p.0 - cx) * (p.0 - cx) + (p.1 - cy) * (p.1 - cy) <= r * r,
    )
}

/// The integer square root: the largest `d` with `d * d <= n`.
pub fn isqrt(n: u64) -> (d: u64)
    requires
        n <= 0x4000_0000_0000_0000,
    ensures
        d * d <= n < (d + 1) * (d + 1),
{
    let mut lo: u64 = 0;
    let mut hi: u64 = 3037000500;
    assert(3037000500 * 3037000500 > 0x4000_0000_0000_0000) by (nonlinear_arith);
    while hi - lo > 1
        invariant
            lo < hi <= 3037000500,
            lo * lo <= n,
            n < hi * hi,
        decreases hi - lo,
    {
        let mid = lo + (hi - lo) / 2;
        assert(mid * mid <= 3037000500 * 3037000500) by (nonlinear_arith)
            requires
                mid <= 3037000500,
        ;
        if mid * mid <= n {
            lo = mid;
        } else {
            hi = mid;
        }
    }
    lo
}

/// `|t| <= d` exactly when `t * t <= n`, for `d` the square root of `n`.
proof fn lemma_within_root(t: int, d: int, n: int)
    requires
        0 <= d,
        d * d <= n < (d + 1) * (d + 1),
    ensures
        (-d <= t <= d) <==> t * t <= n,
{
    if -d <= t <= d {
        assert(t * t <= d * d) by (nonlinear_arith)
            requires
                -d <= t <= d,
        ;
    } else {
        assert(t * t >= (d + 1) * (d + 1)) by (nonlinear_arith)
            requires
                t > d || t < -d,
                0 <= d,
        ;
    }
}

/// Fills the disc of radius `radius` around `(cx, cy)`: every point whose
/// squared distance from the centre is at most `radius * radius`; nothing
/// for a radius that is not positive. Each row spans the exact integer
/// square root of what the radius leaves for it. A row width taken from a
/// floating-point square root (`(v as f64).sqrt() as i32`) is the same for
/// radii below 2^25, but for larger radii it can round up to one more
/// pixel on each side: for radius 2^27 and a row one off the centre it
/// reaches `cx + 2^27`, where this disc stops at `cx + 2^27 - 1`.
pub fn fill_circle_on_frame(shp: &mut SHP, fi: usize, cx: i32, cy: i32, radius: i32, color: u8)
    requires
        canvas_ok(*old(shp), fi as int),
        disc_fits(cx as int, cy as int, radius as int),
    ensures
        fi < old(shp).frames@.len() ==> frame_becomes(
            *old(shp),
            *final(shp),
            fi as int,
            frame_painted(
                *old(shp),
                fi as int,
                disc_points(cx as int, cy as int, radius as int),
                color,
            ),
        ),
        fi >= old(shp).frames@.len() ==> *final(shp) == *old(shp),
{
    if fi >= shp.frames.len() {
        return;
    }
    let ghost orig = *shp;
    proof {
        lemma_paint_nothing(
            orig.frames@[fi as int].pixels@,
            orig.width as int,
            orig.height as int,
            color,
        );
    }
    if radius <= 0 {
        assert(disc_points(cx as int, cy as int, radius as int) =~= Set::empty());
        return;
    }
    let ghost c = (cx as int, cy as int);
    let ghost r = radius as int;
    assert(r * r <= 0x7fff_ffff * 0x7fff_ffff) by (nonlinear_arith)
        requires
            0 < r <= 0x7fff_ffff,
    ;
    assert(0 <= r * r) by (nonlinear_arith);
    let r2: i64 = (radius as i64) * (radius as i64);
    let min_y = cy - radius;
    let max_y = cy + radius;
    let mut y: i64 = min_y as i64;
    assert(Set::new(
        |p: (int, int)| disc_points(c.0, c.1, r).contains(p) && p.1 < y,
    ) =~= Set::<(int, int)>::empty()) by {
        assert forall|p: (int, int)| disc_points(c.0, c.1, r).contains(p) implies p.1 >= y by {
            if p.1 < y {
                assert((p.1 - c.1) * (p.1 - c.1) > r * r) by (nonlinear_arith)
                    requires
                        p.1 - c.1 < -r,
                        0 < r,
                ;
                assert((p.0 - c.0) * (p.0 - c.0) >= 0) by (nonlinear_arith);
            }
        }
    }
    while y <= max_y as i64
        invariant
            fi < shp.frames@.len(),
            canvas_ok(*shp, fi as int),
            shp.width == orig.width,
            shp.height == orig.height,
            orig.frames@.len() == shp.frames@.len(),
            orig.frames@[fi as int].pixels@.len() == shp.frames@[fi as int].pixels@.len(),
            disc_fits(cx as int, cy as int, radius as int),
            0 < radius,
            c == (cx as int, cy as int),
            r == radius,
            r2 == r * r,
            max_y == cy + radius,
            cy - radius <= y <= max_y + 1,
            frame_becomes(
                orig,
                *shp,
                fi as int,
                frame_painted(
                    orig,
                    fi as int,
                    Set::new(|p: (int, int)| disc_points(c.0, c.1, r).contains(p) && p.1 < y),
                    color,
                ),
            ),
        decreases max_y as i64 + 1 - y,
    {
        let dy: i64 = y - cy as i64;
        assert(dy * dy <= r * r) by (nonlinear_arith)
            requires
                -r <= dy <= r,
        ;
        assert(0 <= dy * dy) by (nonlinear_arith);
        assert(r * r <= 0x7fff_ffff * 0x7fff_ffff) by (nonlinear_arith)
            requires
                0 < r <= 0x7fff_ffff,
        ;
        let xr2 = r2 - dy * dy;
        let d = isqrt(xr2 as u64);
        assert(d <= r) by {
            if d > r {
                assert(d * d >= (r + 1) * (r + 1)) by (nonlinear_arith)
                    requires
                        d >= r + 1,
                        0 < r,
                ;
                assert((r + 1) * (r + 1) > r * r) by (nonlinear_arith)
                    requires
                        0 < r,
                ;
            }
        }
        let dx = d as i32;
        let lx = cx - dx;
        let rx = cx + dx;
        let ghost row_done = Set::new(
            |p: (int, int)| disc_points(c.0, c.1, r).contains(p) && p.1 < y,
        );
        let mut x: i64 = lx as i64;
        assert(row_done =~= row_done.union(
            Set::new(|p: (int, int)| p.1 == y && lx <= p.0 < x),
        ));
        while x <= rx as i64
            invariant
                fi < shp.frames@.len(),
                canvas_ok(*shp, fi as int),
                shp.width == orig.width,
                shp.height == orig.height,
                orig.frames@.len() == shp.frames@.len(),
                orig.frames@[fi as int].pixels@.len() == shp.frames@[fi as int].pixels@.len(),
                lx <= rx,
                disc_fits(cx as int, cy as int, radius as int),
                0 < radius,
                cy - radius <= y <= cy + radius,
                i32::MIN <= lx,
                rx <= i32::MAX,
                lx <= x <= rx as i64 + 1,
                frame_becomes(
                    orig,
                    *shp,
                    fi as int,
                    frame_painted(
                        orig,
                        fi as int,
                        row_done.union(Set::new(|p: (int, int)| p.1 == y && lx <= p.0 < x)),
                        color,
                    ),
                ),
            decreases rx as i64 + 1 - x,
        {
            let ghost before = row_done.union(
                Set::new(|p: (int, int)| p.1 == y && lx <= p.0 < x),
            );
            let xi = x as i32;
            let yi = y as i32;
            assert(xi as int == x as int && yi as int == y as int);
            paint_point(shp, fi, xi, yi, color, Ghost(orig), Ghost(before));
            assert(before.insert((x as int, y as int)) =~= row_done.union(
                Set::new(|p: (int, int)| p.1 == y && lx <= p.0 < x + 1),
            ));
            x = x + 1;
        }
        proof {
            let next = Set::new(
                |p: (int, int)| disc_points(c.0, c.1, r).contains(p) && p.1 < y + 1,
            );
            assert forall|p: (int, int)| #[trigger] next.contains(p) == row_done.union(
                Set::new(|q: (int, int)| q.1 == y && lx <= q.0 < x),
            ).contains(p) by {
                if p.1 == y {
                    lemma_within_root(p.0 - cx, d as int, xr2 as int);
                }
            }
            assert(next =~= row_done.union(Set::new(|q: (int, int)| q.1 == y && lx <= q.0 < x)));
        }
        y = y + 1;
    }
    proof {
        let last = Set::new(|p: (int, int)| disc_points(c.0, c.1, r).contains(p) && p.1 < y);
        assert forall|p: (int, int)| #[trigger] disc_points(c.0, c.1, r).contains(p) implies p.1
            < y by {
            if p.1 >= y {
                assert((p.1 - c.1) * (p.1 - c.1) > r * r) by (nonlinear_arith)
                    requires
                        p.1 - c.1 > r,
                        0 < r,
                ;
                assert((p.0 - c.0) * (p.0 - c.0) >= 0) by (nonlinear_arith);
            }
        }
        assert(last =~= disc_points(c.0, c.1, r));
    }
}

/// The radius of the round brush of width `size`: half of `size - 1`,
/// rounded toward zero, at least 1 (the size read as `i32`).
pub open spec fn brush_radius(size: u32) -> int {
    let r = ((size as i32) - 1) / 2;
    if r >= 1 {
        r as int
    } else {
        1
    }
}

/// The points the round brush of width `size` covers around `(cx, cy)`:
/// the centre alone for a width of at most 1, else the disc of
/// `brush_radius(size)`.
pub open spec fn brush_points(cx: int, cy: int, size: u32) -> Set<(int, int)> {
    if size <= 1 {
        set![(cx, cy)]
    } else {
        disc_points(cx, cy, brush_radius(size))
    }
}

/// A brush of width `size` of at least 3 reaches `(size - 1) / 2` pixels
/// left and right of its centre, and covers no point farther than that from
/// the centre: it grows with its width.
pub proof fn lemma_brush_width(cx: int, cy: int, size: u32)
    requires
        3 <= size <= i32::MAX,
    ensures
        brush_points(cx, cy, size).contains((cx - (size - 1) / 2, cy)),
        brush_points(cx, cy, size).contains((cx + (size - 1) / 2, cy)),
        forall|p: (int, int)| #[trigger]
            brush_points(cx, cy, size).contains(p) ==> (p.0 - cx) * (p.0 - cx) + (p.1 - cy) * (
            p.1 - cy) <= ((size - 1) / 2) * ((size - 1) / 2),
{
    assert(size as i32 as int == size as int);
    let k = (size - 1) / 2;
    assert(brush_radius(size) == k);
    assert((-k) * (-k) == k * k) by (nonlinear_arith);
    assert((cy - cy) * (cy - cy) == 0);
    assert(((cx - k) - cx) * ((cx - k) - cx) == k * k) by (nonlinear_arith);
    assert(((cx + k) - cx) * ((cx + k) - cx) == k * k) by (nonlinear_arith);
    assert(disc_points(cx, cy, k).contains((cx - k, cy)));
    assert(disc_points(cx, cy, k).contains((cx + k, cy)));
}

/// A brush of width at most 1 covers its centre alone.
pub proof fn lemma_brush_single(cx: int, cy: int, size: u32)
    requires
        size <= 1,
    ensures
        brush_points(cx, cy, size) == set![(cx, cy)],
{
}

/// Stamps the round brush of width `size` centred on `(cx, cy)`: a single
/// pixel for a width of at most 1, else the disc of `brush_radius(size)`.
pub fn stamp_disc_on_frame(shp: &mut SHP, fi: usize, cx: i32, cy: i32, size: u32, color: u8)
    requires
        canvas_ok(*old(shp), fi as int),
        size != 0x8000_0000,
        size > 1 ==> disc_fits(cx as int, cy as int, brush_radius(size)),
    ensures
        fi < old(shp).frames@.len() ==> frame_becomes(
            *old(shp),
            *final(shp),
            fi as int,
            frame_painted(*old(shp), fi as int, brush_points(cx as int, cy as int, size), color),
        ),
        fi >= old(shp).frames@.len() ==> *final(shp) == *old(shp),
{
    if size <= 1 {
        if fi < shp.frames.len() {
            let ghost orig = *shp;
            proof {
                lemma_paint_nothing(
                    orig.frames@[fi as int].pixels@,
                    orig.width as int,
                    orig.height as int,
                    color,
                );
            }
            paint_point(shp, fi, cx, cy, color, Ghost(orig), Ghost(Set::empty()));
            assert(Set::<(int, int)>::empty().insert((cx as int, cy as int)) =~= set![
                (cx as int, cy as int),
            ]);
        }
        return;
    }
    let s = #[verifier::truncate] (size as i32);
    assert(size != 0x8000_0000u32 ==> (size as i32) != i32::MIN) by (bit_vector);
    let radius = (s - 1) / 2;
    let r = if radius >= 1 {
        radius
    } else {
        1
    };
    fill_circle_on_frame(shp, fi, cx, cy, r, color);
}

} // verus!
