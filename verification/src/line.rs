//! Straight lines by Bresenham's algorithm, for every direction.
use vstd::prelude::*;

use crate::draw::{canvas_ok, frame_becomes, frame_painted, lemma_paint_nothing, paint_point};
use crate::shp::SHP;

verus! {

/// `|v|`.
pub open spec fn abs(v: int) -> int {
    if v < 0 {
        -v
    } else {
        v
    }
}

/// The step toward `to` from `from`: 1 when `from < to`, else -1.
pub open spec fn step_toward(from: int, to: int) -> int {
    if from < to {
        1
    } else {
        -1
    }
}

/// One step of the algorithm from `(x, y)` with error term `err`, where
/// `dx = |x1 - x0|` and `dy = -|y1 - y0|`.
pub open spec fn line_step(x: int, y: int, err: int, dx: int, dy: int, sx: int, sy: int) -> (
    int,
    int,
    int,
) {
    let e2 = 2 * err;
    let x2 = if e2 >= dy {
        x + sx
    } else {
        x
    };
    let err1 = if e2 >= dy {
        err + dy
    } else {
        err
    };
    let y2 = if e2 <= dx {
        y + sy
    } else {
        y
    };
    let err2 = if e2 <= dx {
        err1 + dx
    } else {
        err1
    };
    (x2, y2, err2)
}

/// The points the algorithm plots from `(x, y)` on, with at most `fuel`
/// more steps, until it reaches `(x1, y1)`.
pub open spec fn line_points_from(
    x: int,
    y: int,
    err: int,
    x1: int,
    y1: int,
    dx: int,
    dy: int,
    sx: int,
    sy: int,
    fuel: nat,
) -> Set<(int, int)>
    decreases fuel,
{
    if (x == x1 && y == y1) || fuel == 0 {
        set![(x, y)]
    } else {
        let (nx, ny, ne) = line_step(x, y, err, dx, dy, sx, sy);
        line_points_from(nx, ny, ne, x1, y1, dx, dy, sx, sy, (fuel - 1) as nat).insert((x, y))
    }
}

/// The points of the line from `(x0, y0)` to `(x1, y1)`.
pub open spec fn line_points(x0: int, y0: int, x1: int, y1: int) -> Set<(int, int)> {
    let dx = abs(x1 - x0);
    let dy = -abs(y1 - y0);
    line_points_from(
        x0,
        y0,
        dx + dy,
        x1,
        y1,
        dx,
        dy,
        step_toward(x0, x1),
        step_toward(y0, y1),
        (dx - dy) as nat,
    )
}

/// `v` is an `i32` value.
pub open spec fn in_i32(v: int) -> bool {
    i32::MIN <= v <= i32::MAX
}

/// One step from error term `err` computes only `i32` values: `2 * err`
/// and the error terms it updates.
pub open spec fn step_fits(err: int, dx: int, dy: int) -> bool {
    let e2 = 2 * err;
    let err1 = if e2 >= dy {
        err + dy
    } else {
        err
    };
    &&& in_i32(e2)
    &&& (e2 >= dy ==> in_i32(err + dy))
    &&& (e2 <= dx ==> in_i32(err1 + dx))
}

/// Every step the algorithm takes from `(x, y)` on, with at most `fuel`
/// more steps, computes only `i32` values.
pub open spec fn line_fits_from(
    x: int,
    y: int,
    err: int,
    x1: int,
    y1: int,
    dx: int,
    dy: int,
    sx: int,
    sy: int,
    fuel: nat,
) -> bool
    decreases fuel,
{
    if (x == x1 && y == y1) || fuel == 0 {
        true
    } else {
        let (nx, ny, ne) = line_step(x, y, err, dx, dy, sx, sy);
        step_fits(err, dx, dy) && line_fits_from(nx, ny, ne, x1, y1, dx, dy, sx, sy, (fuel - 1) as nat)
    }
}

/// Drawing the line from `(x0, y0)` to `(x1, y1)` computes only `i32`
/// values: the coordinate differences and their absolute values, and every
/// error term along the way.
pub open spec fn line_span_ok(x0: int, y0: int, x1: int, y1: int) -> bool {
    let dx = abs(x1 - x0);
    let dy = -abs(y1 - y0);
    &&& i32::MIN < x1 - x0 <= i32::MAX
    &&& i32::MIN < y1 - y0 <= i32::MAX
    &&& line_fits_from(
        x0,
        y0,
        dx + dy,
        x1,
        y1,
        dx,
        dy,
        step_toward(x0, x1),
        step_toward(y0, y1),
        (dx - dy) as nat,
    )
}

/// The state `(x, y, err)` of a line from `(x0, y0)` to `(x1, y1)` after
/// `a` steps in x and `b` steps in y: both within the line's extent, and
/// the error term is `dx * (b + 1) - B * (a + 1)` where `B = |y1 - y0|`.
pub open spec fn line_inv(x0: int, y0: int, x1: int, y1: int, x: int, y: int, err: int) -> bool {
    let dx = abs(x1 - x0);
    let bb = abs(y1 - y0);
    let a = if x0 < x1 {
        x - x0
    } else {
        x0 - x
    };
    let b = if y0 < y1 {
        y - y0
    } else {
        y0 - y
    };
    &&& 0 <= a <= dx
    &&& 0 <= b <= bb
    &&& err == dx * (b + 1) - bb * (a + 1)
    &&& -3 * bb <= 2 * err <= 3 * dx
}

/// The invariant holds at the start of a line.
pub proof fn lemma_line_start(x0: int, y0: int, x1: int, y1: int)
    ensures
        line_inv(x0, y0, x1, y1, x0, y0, abs(x1 - x0) - abs(y1 - y0)),
{
    let dx = abs(x1 - x0);
    let bb = abs(y1 - y0);
    assert(dx * (0 + 1) - bb * (0 + 1) == dx - bb) by (nonlinear_arith);
}

/// Distance still to go.
pub open spec fn line_remaining(x0: int, y0: int, x1: int, y1: int, x: int, y: int) -> int {
    abs(x1 - x) + abs(y1 - y)
}

/// One step keeps the invariant, moves closer to the end, and stays in the
/// bounds the error term needs.
pub proof fn lemma_line_step(x0: int, y0: int, x1: int, y1: int, x: int, y: int, err: int)
    requires
        line_inv(x0, y0, x1, y1, x, y, err),
        !(x == x1 && y == y1),
    ensures
        ({
            let dx = abs(x1 - x0);
            let dy = -abs(y1 - y0);
            let (nx, ny, ne) = line_step(
                x,
                y,
                err,
                dx,
                dy,
                step_toward(x0, x1),
                step_toward(y0, y1),
            );
            &&& line_inv(x0, y0, x1, y1, nx, ny, ne)
            &&& line_remaining(x0, y0, x1, y1, nx, ny) < line_remaining(x0, y0, x1, y1, x, y)
            &&& (2 * err >= dy ==> 3 * dy <= 2 * err + 2 * dy)
        }),
{
    let dx = abs(x1 - x0);
    let bb = abs(y1 - y0);
    let dy = -bb;
    let a = if x0 < x1 {
        x - x0
    } else {
        x0 - x
    };
    let b = if y0 < y1 {
        y - y0
    } else {
        y0 - y
    };
    let e2 = 2 * err;
    // x may only move when it has not arrived
    if a == dx {
        assert(b < bb);
        assert(dx * (b + 1 - bb) <= 0) by (nonlinear_arith)
            requires
                b + 1 <= bb,
                0 <= dx,
        ;
        assert(dx * (b + 1) - bb * (a + 1) == dx * (b + 1 - bb) - bb) by (nonlinear_arith)
            requires
                a == dx,
        ;
        assert(e2 < dy);
    }
    // y may only move when it has not arrived
    if b == bb {
        assert(a < dx);
        assert(bb * (a + 1 - dx) <= 0) by (nonlinear_arith)
            requires
                a + 1 <= dx,
                0 <= bb,
        ;
        assert(dx * (b + 1) - bb * (a + 1) == dx - bb * (a + 1 - dx)) by (nonlinear_arith)
            requires
                b == bb,
        ;
        assert(e2 > dx);
    }
    assert(dx * (b + 2) == dx * (b + 1) + dx) by (nonlinear_arith);
    assert(bb * (a + 2) == bb * (a + 1) + bb) by (nonlinear_arith);
}

/// From a state of the invariant with `fuel` at least the distance left,
/// the plotted points include the end point.
pub proof fn lemma_line_reaches_end(
    x0: int,
    y0: int,
    x1: int,
    y1: int,
    x: int,
    y: int,
    err: int,
    fuel: nat,
)
    requires
        line_inv(x0, y0, x1, y1, x, y, err),
        fuel >= line_remaining(x0, y0, x1, y1, x, y),
    ensures
        line_points_from(
            x,
            y,
            err,
            x1,
            y1,
            abs(x1 - x0),
            -abs(y1 - y0),
            step_toward(x0, x1),
            step_toward(y0, y1),
            fuel,
        ).contains((x1, y1)),
    decreases fuel,
{
    if !(x == x1 && y == y1) {
        lemma_line_step(x0, y0, x1, y1, x, y, err);
        let (nx, ny, ne) = line_step(
            x,
            y,
            err,
            abs(x1 - x0),
            -abs(y1 - y0),
            step_toward(x0, x1),
            step_toward(y0, y1),
        );
        lemma_line_reaches_end(x0, y0, x1, y1, nx, ny, ne, (fuel - 1) as nat);
    }
}

/// A line passes through both its end points.
pub proof fn lemma_line_has_endpoints(x0: int, y0: int, x1: int, y1: int)
    ensures
        line_points(x0, y0, x1, y1).contains((x0, y0)),
        line_points(x0, y0, x1, y1).contains((x1, y1)),
{
    let dx = abs(x1 - x0);
    let bb = abs(y1 - y0);
    lemma_line_start(x0, y0, x1, y1);
    lemma_line_reaches_end(x0, y0, x1, y1, x0, y0, dx - bb, (dx + bb) as nat);
}

/// `p` lies in the box spanned by `(x0, y0)` and `(x1, y1)`.
pub open spec fn in_line_box(x0: int, y0: int, x1: int, y1: int, p: (int, int)) -> bool {
    &&& (if x0 <= x1 {
        x0 <= p.0 <= x1
    } else {
        x1 <= p.0 <= x0
    })
    &&& (if y0 <= y1 {
        y0 <= p.1 <= y1
    } else {
        y1 <= p.1 <= y0
    })
}

proof fn lemma_points_from_in_box(
    x0: int,
    y0: int,
    x1: int,
    y1: int,
    x: int,
    y: int,
    err: int,
    fuel: nat,
)
    requires
        line_inv(x0, y0, x1, y1, x, y, err),
    ensures
        forall|p: (int, int)|
            #[trigger] line_points_from(
                x,
                y,
                err,
                x1,
                y1,
                abs(x1 - x0),
                -abs(y1 - y0),
                step_toward(x0, x1),
                step_toward(y0, y1),
                fuel,
            ).contains(p) ==> in_line_box(x0, y0, x1, y1, p),
    decreases fuel,
{
    assert(in_line_box(x0, y0, x1, y1, (x, y)));
    if !((x == x1 && y == y1) || fuel == 0) {
        lemma_line_step(x0, y0, x1, y1, x, y, err);
        let (nx, ny, ne) = line_step(
            x,
            y,
            err,
            abs(x1 - x0),
            -abs(y1 - y0),
            step_toward(x0, x1),
            step_toward(y0, y1),
        );
        lemma_points_from_in_box(x0, y0, x1, y1, nx, ny, ne, (fuel - 1) as nat);
        let dx = abs(x1 - x0);
        let dy = -abs(y1 - y0);
        let (sx, sy) = (step_toward(x0, x1), step_toward(y0, y1));
        let rest = line_points_from(nx, ny, ne, x1, y1, dx, dy, sx, sy, (fuel - 1) as nat);
        assert(line_points_from(x, y, err, x1, y1, dx, dy, sx, sy, fuel) == rest.insert((x, y)));
        assert forall|p: (int, int)| #[trigger] rest.insert((x, y)).contains(p) implies in_line_box(
            x0,
            y0,
            x1,
            y1,
            p,
        ) by {
            if p != (x, y) {
                assert(rest.contains(p));
            }
        }
    }
}

/// A line stays inside the box its end points span.
pub proof fn lemma_line_in_box(x0: int, y0: int, x1: int, y1: int)
    ensures
        forall|p: (int, int)|
            #[trigger] line_points(x0, y0, x1, y1).contains(p) ==> in_line_box(x0, y0, x1, y1, p),
{
    let dx = abs(x1 - x0);
    let bb = abs(y1 - y0);
    lemma_line_start(x0, y0, x1, y1);
    lemma_points_from_in_box(x0, y0, x1, y1, x0, y0, dx - bb, (dx + bb) as nat);
}

/// Whether drawing the line from `(x0, y0)` to `(x1, y1)` computes only
/// `i32` values (see `line_span_ok`): the algorithm's arithmetic, replayed
/// in `i64`.
pub fn line_fits(x0: i32, y0: i32, x1: i32, y1: i32) -> (r: bool)
    ensures
        r == line_span_ok(x0 as int, y0 as int, x1 as int, y1 as int),
{
    let ddx: i64 = x1 as i64 - x0 as i64;
    let ddy: i64 = y1 as i64 - y0 as i64;
    if !(-2147483648i64 < ddx && ddx <= 2147483647 && -2147483648i64 < ddy && ddy <= 2147483647) {
        return false;
    }
    let dx: i64 = if ddx >= 0 {
        ddx
    } else {
        -ddx
    };
    let dy: i64 = if ddy >= 0 {
        -ddy
    } else {
        ddy
    };
    let sx: i64 = if x0 < x1 {
        1
    } else {
        -1
    };
    let sy: i64 = if y0 < y1 {
        1
    } else {
        -1
    };
    let mut x: i64 = x0 as i64;
    let mut y: i64 = y0 as i64;
    let mut err: i64 = dx + dy;
    let ghost mut fuel: nat = (dx - dy) as nat;
    proof {
        lemma_line_start(x0 as int, y0 as int, x1 as int, y1 as int);
    }
    while !(x == x1 as i64 && y == y1 as i64)
        invariant
            dx == abs(x1 - x0),
            dy == -abs(y1 - y0),
            sx == step_toward(x0 as int, x1 as int),
            sy == step_toward(y0 as int, y1 as int),
            0 <= dx <= i32::MAX,
            -i32::MAX <= dy <= 0,
            i32::MIN < x1 - x0 <= i32::MAX,
            i32::MIN < y1 - y0 <= i32::MAX,
            line_inv(x0 as int, y0 as int, x1 as int, y1 as int, x as int, y as int, err as int),
            fuel >= line_remaining(x0 as int, y0 as int, x1 as int, y1 as int, x as int, y as int),
            line_span_ok(x0 as int, y0 as int, x1 as int, y1 as int) == line_fits_from(
                x as int,
                y as int,
                err as int,
                x1 as int,
                y1 as int,
                dx as int,
                dy as int,
                sx as int,
                sy as int,
                fuel,
            ),
        decreases fuel,
    {
        proof {
            lemma_line_step(x0 as int, y0 as int, x1 as int, y1 as int, x as int, y as int, err as int);
        }
        let e2 = 2 * err;
        if !(-2147483648i64 <= e2 && e2 <= 2147483647) {
            return false;
        }
        if e2 >= dy {
            let e = err + dy;
            if !(-2147483648i64 <= e && e <= 2147483647) {
                return false;
            }
            err = e;
            x = x + sx;
        }
        if e2 <= dx {
            let e = err + dx;
            if !(-2147483648i64 <= e && e <= 2147483647) {
                return false;
            }
            err = e;
            y = y + sy;
        }
        proof {
            fuel = (fuel - 1) as nat;
        }
    }
    true
}

/// Draws the line from `(x0, y0)` to `(x1, y1)`, both ends included.
pub fn draw_line_on_frame(
    shp: &mut SHP,
    fi: usize,
    x0: i32,
    y0: i32,
    x1: i32,
    y1: i32,
    color: u8,
)
    requires
        canvas_ok(*old(shp), fi as int),
        line_span_ok(x0 as int, y0 as int, x1 as int, y1 as int),
    ensures
        fi < old(shp).frames@.len() ==> frame_becomes(
            *old(shp),
            *final(shp),
            fi as int,
            frame_painted(
                *old(shp),
                fi as int,
                line_points(x0 as int, y0 as int, x1 as int, y1 as int),
                color,
            ),
        ),
        fi >= old(shp).frames@.len() ==> *final(shp) == *old(shp),
{
    if fi >= shp.frames.len() {
        return;
    }
    let dx: i32 = if x1 >= x0 {
        x1 - x0
    } else {
        x0 - x1
    };
    let sx: i32 = if x0 < x1 {
        1
    } else {
        -1
    };
    let dy: i32 = if y1 >= y0 {
        -(y1 - y0)
    } else {
        -(y0 - y1)
    };
    let sy: i32 = if y0 < y1 {
        1
    } else {
        -1
    };
    let mut err: i32 = dx + dy;
    let mut x = x0;
    let mut y = y0;
    let ghost orig = *shp;
    let ghost all = line_points(x0 as int, y0 as int, x1 as int, y1 as int);
    let ghost mut done: Set<(int, int)> = Set::empty();
    let ghost mut fuel: nat = (dx - dy) as nat;
    proof {
        lemma_line_start(x0 as int, y0 as int, x1 as int, y1 as int);
        lemma_paint_nothing(
            orig.frames@[fi as int].pixels@,
            orig.width as int,
            orig.height as int,
            color,
        );
        assert(done.union(
            line_points_from(
                x as int,
                y as int,
                err as int,
                x1 as int,
                y1 as int,
                dx as int,
                dy as int,
                sx as int,
                sy as int,
                fuel,
            ),
        ) =~= all);
    }
    loop
        invariant
            fi < shp.frames@.len(),
            canvas_ok(*shp, fi as int),
            shp.width == orig.width,
            shp.height == orig.height,
            orig.frames@.len() == shp.frames@.len(),
            orig.frames@[fi as int].pixels@.len() == shp.frames@[fi as int].pixels@.len(),
            line_fits_from(
                x as int,
                y as int,
                err as int,
                x1 as int,
                y1 as int,
                dx as int,
                dy as int,
                sx as int,
                sy as int,
                fuel,
            ),
            dx == abs(x1 - x0),
            dy == -abs(y1 - y0),
            sx == step_toward(x0 as int, x1 as int),
            sy == step_toward(y0 as int, y1 as int),
            line_inv(x0 as int, y0 as int, x1 as int, y1 as int, x as int, y as int, err as int),
            fuel >= line_remaining(x0 as int, y0 as int, x1 as int, y1 as int, x as int, y as int),
            all == line_points(x0 as int, y0 as int, x1 as int, y1 as int),
            done.union(
                line_points_from(
                    x as int,
                    y as int,
                    err as int,
                    x1 as int,
                    y1 as int,
                    dx as int,
                    dy as int,
                    sx as int,
                    sy as int,
                    fuel,
                ),
            ) == all,
            frame_becomes(orig, *shp, fi as int, frame_painted(orig, fi as int, done, color)),
        ensures
            frame_becomes(orig, *shp, fi as int, frame_painted(orig, fi as int, all, color)),
        decreases fuel,
    {
        paint_point(shp, fi, x, y, color, Ghost(orig), Ghost(done));
        proof {
            done = done.insert((x as int, y as int));
        }
        if x == x1 && y == y1 {
            proof {
                assert(done =~= all);
            }
            break;
        }
        proof {
            lemma_line_step(x0 as int, y0 as int, x1 as int, y1 as int, x as int, y as int, err as int);
        }
        let e2 = 2 * err;
        if e2 >= dy {
            err = err + dy;
            x = x + sx;
        }
        if e2 <= dx {
            err = err + dx;
            y = y + sy;
        }
        proof {
            let old_fuel = fuel;
            fuel = (fuel - 1) as nat;
            assert(done.union(
                line_points_from(
                    x as int,
                    y as int,
                    err as int,
                    x1 as int,
                    y1 as int,
                    dx as int,
                    dy as int,
                    sx as int,
                    sy as int,
                    fuel,
                ),
            ) =~= all);
        }
    }
}

} // verus!
