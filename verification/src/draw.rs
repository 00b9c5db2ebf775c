//! Drawing on one frame: single pixels, lines, rectangles, circles, discs
//! and flood fill. Points off the canvas are skipped.
use vstd::prelude::*;

use crate::shp::SHP;
use vstd::arithmetic::div_mod::{lemma_fundamental_div_mod, lemma_fundamental_div_mod_converse};

verus! {

/// `(x, y)` lies on a `w` by `h` canvas.
pub open spec fn on_canvas(w: int, h: int, x: int, y: int) -> bool {
    0 <= x < w && 0 <= y < h
}

/// The frame's pixels with every canvas point of `pts` set to `color`;
/// pixel `i` of the canvas is the point `(i % w, i / w)`.
pub open spec fn painted(px: Seq<u8>, w: int, h: int, pts: Set<(int, int)>, color: u8) -> Seq<u8> {
    Seq::new(
        px.len(),
        |i: int|
            if 0 < w && 0 <= i < w * h && pts.contains((i % w, i / w)) {
                color
            } else {
                px[i]
            },
    )
}

/// Frame `fi` holds its whole canvas, and pixel indices fit `u32`.
pub open spec fn canvas_ok(shp: SHP, fi: int) -> bool {
    fi < shp.frames@.len() ==> {
        &&& shp.width * shp.height <= 0x1_0000_0000
        &&& shp.frames@[fi].pixels@.len() >= shp.width * shp.height
    }
}

/// Only frame `fi` may change, and it becomes `px` when it exists.
pub open spec fn frame_becomes(old: SHP, new: SHP, fi: int, px: Seq<u8>) -> bool {
    &&& new.width == old.width
    &&& new.height == old.height
    &&& new.frames@.len() == old.frames@.len()
    &&& (0 <= fi < old.frames@.len() ==> new.frames@[fi].pixels@ == px)
    &&& forall|j: int|
        0 <= j < old.frames@.len() && j != fi ==> #[trigger] new.frames@[j] == old.frames@[j]
}

/// The pixels of frame `fi` with `pts` painted in `color` (the frame
/// unchanged when it does not exist).
pub open spec fn frame_painted(shp: SHP, fi: int, pts: Set<(int, int)>, color: u8) -> Seq<u8> {
    painted(shp.frames@[fi].pixels@, shp.width as int, shp.height as int, pts, color)
}

/// A `u32` that reads as a positive `i32` is that value.
pub proof fn lemma_positive_i32(v: u32)
    requires
        0 < v as i32,
    ensures
        v as i32 as int == v as int,
{
    assert(0 < v as i32 ==> v as i32 as int == v as int) by (bit_vector);
}

/// A canvas point and its pixel index name each other.
pub proof fn lemma_point_index(x: int, y: int, w: int, h: int)
    requires
        on_canvas(w, h, x, y),
    ensures
        0 <= y * w + x < w * h,
        (y * w + x) % w == x,
        (y * w + x) / w == y,
{
    lemma_fundamental_div_mod_converse(y * w + x, w, y, x);
    assert(0 <= y * w) by (nonlinear_arith)
        requires
            0 <= y,
            0 < w,
    ;
    assert(y * w + w <= w * h) by (nonlinear_arith)
        requires
            y + 1 <= h,
            0 < w,
    ;
}

/// A pixel index of the canvas names a canvas point.
pub proof fn lemma_index_point(i: int, w: int, h: int)
    requires
        0 < w,
        0 <= i < w * h,
    ensures
        on_canvas(w, h, i % w, i / w),
        i == (i / w) * w + i % w,
{
    lemma_fundamental_div_mod(i, w);
    let q = i / w;
    let r = i % w;
    assert(q * w == w * q) by (nonlinear_arith);
    assert(0 <= q) by (nonlinear_arith)
        requires
            0 <= i,
            0 < w,
            i == w * q + r,
            r < w,
    ;
    assert(q < h) by (nonlinear_arith)
        requires
            i < w * h,
            0 < w,
            i == w * q + r,
            0 <= r,
    ;
}

/// Painting one more point: writing its pixel when it is on the canvas,
/// nothing otherwise.
pub proof fn lemma_paint_one_more(
    px: Seq<u8>,
    w: int,
    h: int,
    pts: Set<(int, int)>,
    color: u8,
    x: int,
    y: int,
)
    requires
        px.len() >= w * h,
    ensures
        on_canvas(w, h, x, y) ==> painted(px, w, h, pts, color).update(y * w + x, color)
            == painted(px, w, h, pts.insert((x, y)), color),
        !on_canvas(w, h, x, y) ==> painted(px, w, h, pts, color) == painted(
            px,
            w,
            h,
            pts.insert((x, y)),
            color,
        ),
{
    let a = painted(px, w, h, pts, color);
    let b = painted(px, w, h, pts.insert((x, y)), color);
    if on_canvas(w, h, x, y) {
        lemma_point_index(x, y, w, h);
        assert forall|i: int| 0 <= i < b.len() implies #[trigger] a.update(y * w + x, color)[i]
            == b[i] by {
            if 0 <= i < w * h {
                lemma_index_point(i, w, h);
                if i != y * w + x {
                    assert((i % w, i / w) != (x, y));
                }
            }
        }
        assert(a.update(y * w + x, color) =~= b);
    } else {
        assert forall|i: int| 0 <= i < b.len() implies #[trigger] a[i] == b[i] by {
            if 0 < w && 0 <= i < w * h {
                lemma_index_point(i, w, h);
            }
        }
        assert(a =~= b);
    }
}

/// Painting no point changes nothing.
pub proof fn lemma_paint_nothing(px: Seq<u8>, w: int, h: int, color: u8)
    ensures
        painted(px, w, h, Set::empty(), color) == px,
{
    assert(painted(px, w, h, Set::empty(), color) =~= px);
}

/// Sets the pixel at `(x, y)` of frame `frame_idx` to `color`; nothing when
/// the frame does not exist or the point is off the canvas.
pub fn frame_set_pixel(shp: &mut SHP, frame_idx: usize, x: i32, y: i32, color: u8)
    requires
        frame_idx < old(shp).frames@.len() && on_canvas(
            old(shp).width as int,
            old(shp).height as int,
            x as int,
            y as int,
        ) ==> {
            &&& y * old(shp).width + x <= u32::MAX
            &&& y * old(shp).width + x < old(shp).frames@[frame_idx as int].pixels@.len()
        },
    ensures
        frame_becomes(
            *old(shp),
            *final(shp),
            frame_idx as int,
            if frame_idx < old(shp).frames@.len() && on_canvas(
                old(shp).width as int,
                old(shp).height as int,
                x as int,
                y as int,
            ) {
                old(shp).frames@[frame_idx as int].pixels@.update(
                    y * old(shp).width + x,
                    color,
                )
            } else if frame_idx < old(shp).frames@.len() {
                old(shp).frames@[frame_idx as int].pixels@
            } else {
                Seq::empty()
            },
        ),
        frame_idx >= old(shp).frames@.len() ==> *final(shp) == *old(shp),
{
    if frame_idx >= shp.frames.len() {
        return;
    }
    if x < 0 || y < 0 {
        return;
    }
    let xu = x as u32;
    let yu = y as u32;
    if xu >= shp.width || yu >= shp.height {
        return;
    }
    proof {
        assert(0 <= yu * shp.width) by (nonlinear_arith)
            requires
                0 <= yu,
                0 <= shp.width,
        ;
    }
    let i = (yu * shp.width + xu) as usize;
    shp.frames[frame_idx].pixels[i] = color;
}

/// The pixel at `(x, y)` of frame `frame_idx`; 0 when the point is off the
/// canvas or the frame does not exist.
pub fn frame_get_pixel(shp: &SHP, frame_idx: usize, x: i32, y: i32) -> (v: u8)
    requires
        frame_idx < shp.frames@.len() && on_canvas(
            shp.width as int,
            shp.height as int,
            x as int,
            y as int,
        ) ==> {
            &&& y * shp.width + x <= u32::MAX
            &&& y * shp.width + x < shp.frames@[frame_idx as int].pixels@.len()
        },
    ensures
        v == if frame_idx < shp.frames@.len() && on_canvas(
            shp.width as int,
            shp.height as int,
            x as int,
            y as int,
        ) {
            shp.frames@[frame_idx as int].pixels@[y * shp.width + x]
        } else {
            0u8
        },
{
    if x < 0 || y < 0 {
        return 0;
    }
    let xu = x as u32;
    let yu = y as u32;
    if frame_idx >= shp.frames.len() || xu >= shp.width || yu >= shp.height {
        return 0;
    }
    proof {
        assert(0 <= yu * shp.width) by (nonlinear_arith)
            requires
                0 <= yu,
                0 <= shp.width,
        ;
    }
    let i = (yu * shp.width + xu) as usize;
    shp.frames[frame_idx].pixels[i]
}

/// On a frame that holds its canvas, every canvas point has an index that
/// fits `u32` and the frame.
pub proof fn lemma_canvas_point_fits(shp: SHP, fi: int, x: int, y: int)
    requires
        0 <= fi < shp.frames@.len(),
        canvas_ok(shp, fi),
    ensures
        on_canvas(shp.width as int, shp.height as int, x, y) ==> y * shp.width + x <= u32::MAX
            && y * shp.width + x < shp.frames@[fi].pixels@.len(),
{
    if on_canvas(shp.width as int, shp.height as int, x, y) {
        lemma_point_index(x, y, shp.width as int, shp.height as int);
    }
}

/// Paints `(x, y)` on frame `fi` (a frame that holds its canvas), keeping
/// the frame equal to `pts` painted on the original pixels.
pub(crate) fn paint_point(
    shp: &mut SHP,
    fi: usize,
    x: i32,
    y: i32,
    color: u8,
    Ghost(orig): Ghost<SHP>,
    Ghost(pts): Ghost<Set<(int, int)>>,
)
    requires
        fi < old(shp).frames@.len(),
        canvas_ok(*old(shp), fi as int),
        old(shp).width == orig.width,
        old(shp).height == orig.height,
        orig.frames@.len() == old(shp).frames@.len(),
        orig.frames@[fi as int].pixels@.len() == old(shp).frames@[fi as int].pixels@.len(),
        frame_becomes(orig, *old(shp), fi as int, frame_painted(orig, fi as int, pts, color)),
    ensures
        canvas_ok(*final(shp), fi as int),
        final(shp).frames@[fi as int].pixels@.len() == old(shp).frames@[fi as int].pixels@.len(),
        frame_becomes(
            orig,
            *final(shp),
            fi as int,
            frame_painted(orig, fi as int, pts.insert((x as int, y as int)), color),
        ),
{
    proof {
        lemma_canvas_point_fits(*shp, fi as int, x as int, y as int);
        lemma_paint_one_more(
            orig.frames@[fi as int].pixels@,
            orig.width as int,
            orig.height as int,
            pts,
            color,
            x as int,
            y as int,
        );
    }
    frame_set_pixel(shp, fi, x, y, color);
}

/// The points of the filled rectangle from `(lx, ty)` to `(rx, by)`,
/// corners included.
pub open spec fn rect_points(lx: int, ty: int, rx: int, by: int) -> Set<(int, int)> {
    Set::new(|p: (int, int)| lx <= p.0 <= rx && ty <= p.1 <= by)
}

/// Fills the rectangle with corners `(x0, y0)` and `(x1, y1)` (in any
/// order), edges included.
pub fn fill_rect_on_frame(shp: &mut SHP, fi: usize, x0: i32, y0: i32, x1: i32, y1: i32, color: u8)
    requires
        canvas_ok(*old(shp), fi as int),
    ensures
        ({
            let (lx, rx) = if x0 <= x1 {
                (x0 as int, x1 as int)
            } else {
                (x1 as int, x0 as int)
            };
            let (ty, by) = if y0 <= y1 {
                (y0 as int, y1 as int)
            } else {
                (y1 as int, y0 as int)
            };
            fi < old(shp).frames@.len() ==> frame_becomes(
                *old(shp),
                *final(shp),
                fi as int,
                frame_painted(*old(shp), fi as int, rect_points(lx, ty, rx, by), color),
            )
        }),
        fi >= old(shp).frames@.len() ==> *final(shp) == *old(shp),
{
    if fi >= shp.frames.len() {
        return;
    }
    let (lx, rx) = if x0 <= x1 {
        (x0, x1)
    } else {
        (x1, x0)
    };
    let (ty, by) = if y0 <= y1 {
        (y0, y1)
    } else {
        (y1, y0)
    };
    let ghost orig = *shp;
    let ghost w = orig.width as int;
    let ghost h = orig.height as int;
    let ghost opx = orig.frames@[fi as int].pixels@;
    proof {
        lemma_paint_nothing(opx, w, h, color);
        assert(frame_becomes(orig, *shp, fi as int, frame_painted(orig, fi as int, Set::empty(), color)));
    }
    let mut y: i64 = ty as i64;
    assert(Set::new(|p: (int, int)| lx <= p.0 <= rx && ty <= p.1 < y) =~= Set::<(int, int)>::empty());
    while y <= by as i64
        invariant
            lx <= rx,
            ty <= by,
            ty <= y <= by as i64 + 1,
            fi < shp.frames@.len(),
            canvas_ok(*shp, fi as int),
            shp.width == orig.width,
            shp.height == orig.height,
            orig.frames@.len() == shp.frames@.len(),
            opx == orig.frames@[fi as int].pixels@,
            opx.len() == shp.frames@[fi as int].pixels@.len(),
            frame_becomes(
                orig,
                *shp,
                fi as int,
                frame_painted(
                    orig,
                    fi as int,
                    Set::new(|p: (int, int)| lx <= p.0 <= rx && ty <= p.1 < y),
                    color,
                ),
            ),
        decreases by as i64 + 1 - y,
    {
        let mut x: i64 = lx as i64;
        assert(Set::new(
            |p: (int, int)| (lx <= p.0 <= rx && ty <= p.1 < y) || (p.1 == y && lx <= p.0 < x),
        ) =~= Set::new(|p: (int, int)| lx <= p.0 <= rx && ty <= p.1 < y));
        while x <= rx as i64
            invariant
                lx <= rx,
                ty <= y <= by,
                lx <= x <= rx as i64 + 1,
                fi < shp.frames@.len(),
                canvas_ok(*shp, fi as int),
                shp.width == orig.width,
                shp.height == orig.height,
                orig.frames@.len() == shp.frames@.len(),
                opx == orig.frames@[fi as int].pixels@,
                opx.len() == shp.frames@[fi as int].pixels@.len(),
                frame_becomes(
                    orig,
                    *shp,
                    fi as int,
                    frame_painted(
                        orig,
                        fi as int,
                        Set::new(
                            |p: (int, int)|
                                (lx <= p.0 <= rx && ty <= p.1 < y) || (p.1 == y && lx <= p.0 < x),
                        ),
                        color,
                    ),
                ),
            decreases rx as i64 + 1 - x,
        {
            let ghost pts = Set::new(
                |p: (int, int)| (lx <= p.0 <= rx && ty <= p.1 < y) || (p.1 == y && lx <= p.0 < x),
            );
            paint_point(shp, fi, x as i32, y as i32, color, Ghost(orig), Ghost(pts));
            assert(pts.insert((x as int, y as int)) =~= Set::new(
                |p: (int, int)|
                    (lx <= p.0 <= rx && ty <= p.1 < y) || (p.1 == y && lx <= p.0 < x + 1),
            ));
            x = x + 1;
        }
        assert(Set::new(
            |p: (int, int)| (lx <= p.0 <= rx && ty <= p.1 < y) || (p.1 == y && lx <= p.0 < x),
        ) =~= Set::new(|p: (int, int)| lx <= p.0 <= rx && ty <= p.1 < y + 1));
        y = y + 1;
    }
    assert(Set::new(|p: (int, int)| lx <= p.0 <= rx && ty <= p.1 < y) =~= rect_points(
        lx as int,
        ty as int,
        rx as int,
        by as int,
    ));
}

} // verus!
