//! Flood fill: recolouring the 4-connected region of one colour around a
//! point.
use vstd::prelude::*;

use crate::draw::{
    canvas_ok, frame_becomes, frame_get_pixel, frame_set_pixel, lemma_canvas_point_fits,
    lemma_paint_nothing, lemma_paint_one_more, lemma_point_index, lemma_positive_i32, on_canvas, painted,
};
use crate::shp::SHP;

verus! {

/// The value of canvas point `p` in a row-major canvas `w` pixels wide.
pub open spec fn pix_at(px: Seq<u8>, w: int, p: (int, int)) -> u8 {
    px[p.1 * w + p.0]
}

/// `p` is on the canvas and has colour `target`.
pub open spec fn fillable(px: Seq<u8>, w: int, h: int, target: u8, p: (int, int)) -> bool {
    on_canvas(w, h, p.0, p.1) && pix_at(px, w, p) == target
}

/// `p` and `q` are horizontal or vertical neighbours.
pub open spec fn adjacent(p: (int, int), q: (int, int)) -> bool {
    (p.0 == q.0 && (p.1 - q.1 == 1 || q.1 - p.1 == 1)) || (p.1 == q.1 && (p.0 - q.0 == 1 || q.0
        - p.0 == 1))
}

/// A walk between neighbours through points of colour `target`.
pub open spec fn is_fill_path(px: Seq<u8>, w: int, h: int, target: u8, path: Seq<(int, int)>) -> bool {
    &&& path.len() >= 1
    &&& forall|i: int| 0 <= i < path.len() ==> fillable(px, w, h, target, #[trigger] path[i])
    &&& forall|i: int| 0 <= i < path.len() - 1 ==> adjacent(#[trigger] path[i], path[i + 1])
}

/// `p` is reached from `start` by such a walk.
pub open spec fn in_region(px: Seq<u8>, w: int, h: int, target: u8, start: (int, int), p: (int, int)) -> bool {
    exists|path: Seq<(int, int)>|
        #[trigger] is_fill_path(px, w, h, target, path) && path[0] == start && path.last() == p
}

/// The 4-connected region of colour `target` that contains `start` (empty
/// when `start` is off the canvas or of another colour).
pub open spec fn fill_region(px: Seq<u8>, w: int, h: int, target: u8, start: (int, int)) -> Set<
    (int, int),
> {
    Set::new(|p: (int, int)| in_region(px, w, h, target, start, p))
}

/// The colour flood fill replaces: that of the start point, 0 when it is
/// off the canvas (as `frame_get_pixel` reads it).
pub open spec fn flood_target(shp: SHP, fi: int, x: int, y: int) -> u8 {
    if fi < shp.frames@.len() && on_canvas(shp.width as int, shp.height as int, x, y) {
        shp.frames@[fi].pixels@[y * shp.width + x]
    } else {
        0
    }
}

/// How many of the first `n` pixels have colour `t`.
pub open spec fn count_color(s: Seq<u8>, n: nat, t: u8) -> nat
    decreases n,
{
    if n == 0 {
        0
    } else {
        count_color(s, (n - 1) as nat, t) + if s[n - 1] == t {
            1nat
        } else {
            0nat
        }
    }
}

proof fn lemma_count_update(s: Seq<u8>, n: nat, t: u8, i: int, v: u8)
    requires
        0 <= i < n <= s.len(),
        s[i] == t,
        v != t,
    ensures
        count_color(s.update(i, v), n, t) + 1 == count_color(s, n, t),
    decreases n,
{
    if i < n - 1 {
        lemma_count_update(s, (n - 1) as nat, t, i, v);
    } else {
        lemma_count_same(s, s.update(i, v), (n - 1) as nat, t);
    }
}

proof fn lemma_count_same(a: Seq<u8>, b: Seq<u8>, n: nat, t: u8)
    requires
        n <= a.len(),
        n <= b.len(),
        forall|j: int| 0 <= j < n ==> a[j] == b[j],
    ensures
        count_color(a, n, t) == count_color(b, n, t),
    decreases n,
{
    if n > 0 {
        lemma_count_same(a, b, (n - 1) as nat, t);
    }
}

/// A point next to the region, of the region's colour, is in it.
proof fn lemma_region_grows(
    px: Seq<u8>,
    w: int,
    h: int,
    target: u8,
    start: (int, int),
    p: (int, int),
    q: (int, int),
)
    requires
        in_region(px, w, h, target, start, p),
        fillable(px, w, h, target, q),
        adjacent(p, q),
    ensures
        in_region(px, w, h, target, start, q),
{
    let path = choose|path: Seq<(int, int)>|
        #[trigger] is_fill_path(px, w, h, target, path) && path[0] == start && path.last() == p;
    let path2 = path.push(q);
    assert forall|i: int| 0 <= i < path2.len() implies fillable(
        px,
        w,
        h,
        target,
        #[trigger] path2[i],
    ) by {
        if i < path.len() {
            assert(path2[i] == path[i]);
        }
    }
    assert forall|i: int| 0 <= i < path2.len() - 1 implies adjacent(
        #[trigger] path2[i],
        path2[i + 1],
    ) by {
        if i < path.len() - 1 {
            assert(path2[i] == path[i]);
            assert(path2[i + 1] == path[i + 1]);
        }
    }
    assert(is_fill_path(px, w, h, target, path2));
}

/// The start point is in its own region when it has the region's colour.
proof fn lemma_region_start(px: Seq<u8>, w: int, h: int, target: u8, start: (int, int))
    requires
        fillable(px, w, h, target, start),
    ensures
        in_region(px, w, h, target, start, start),
{
    let path = seq![start];
    assert(is_fill_path(px, w, h, target, path));
}

/// A set that holds the start point and holds every region-coloured
/// neighbour of its points holds the whole region.
proof fn lemma_region_closed(
    px: Seq<u8>,
    w: int,
    h: int,
    target: u8,
    start: (int, int),
    r: Set<(int, int)>,
    p: (int, int),
)
    requires
        fillable(px, w, h, target, start) ==> r.contains(start),
        forall|a: (int, int), b: (int, int)|
            r.contains(a) && adjacent(a, b) && fillable(px, w, h, target, b) ==> #[trigger] r.contains(
                b,
            ) || !#[trigger] adjacent(a, b),
        in_region(px, w, h, target, start, p),
    ensures
        r.contains(p),
{
    let path = choose|path: Seq<(int, int)>|
        #[trigger] is_fill_path(px, w, h, target, path) && path[0] == start && path.last() == p;
    lemma_path_in(px, w, h, target, start, r, path, (path.len() - 1) as nat);
}

proof fn lemma_path_in(
    px: Seq<u8>,
    w: int,
    h: int,
    target: u8,
    start: (int, int),
    r: Set<(int, int)>,
    path: Seq<(int, int)>,
    k: nat,
)
    requires
        fillable(px, w, h, target, start) ==> r.contains(start),
        forall|a: (int, int), b: (int, int)|
            r.contains(a) && adjacent(a, b) && fillable(px, w, h, target, b) ==> #[trigger] r.contains(
                b,
            ) || !#[trigger] adjacent(a, b),
        is_fill_path(px, w, h, target, path),
        path[0] == start,
        k < path.len(),
    ensures
        r.contains(path[k as int]),
    decreases k,
{
    assert(fillable(px, w, h, target, path[0]));
    if k > 0 {
        lemma_path_in(px, w, h, target, start, r, path, (k - 1) as nat);
        assert(adjacent(path[k - 1], path[k as int]));
        assert(fillable(px, w, h, target, path[k as int]));
    }
}

/// Painted pixels read back as painted.
proof fn lemma_painted_at(px: Seq<u8>, w: int, h: int, r: Set<(int, int)>, c: u8, q: (int, int))
    requires
        on_canvas(w, h, q.0, q.1),
        px.len() >= w * h,
    ensures
        pix_at(painted(px, w, h, r, c), w, q) == if r.contains(q) {
            c
        } else {
            pix_at(px, w, q)
        },
{
    lemma_point_index(q.0, q.1, w, h);
}

/// Recolours, in frame `fi`, the 4-connected region around `(x, y)` of the
/// colour found there (see `flood_target`) with `new_color`; nothing when
/// that colour is already `new_color`. The canvas is the frame's width and
/// height read as `i32`.
pub fn flood_fill_on_frame(shp: &mut SHP, fi: usize, x: i32, y: i32, new_color: u8)
    requires
        canvas_ok(*old(shp), fi as int),
    ensures
        ({
            let target = flood_target(*old(shp), fi as int, x as int, y as int);
            let w = old(shp).width as i32 as int;
            let h = old(shp).height as i32 as int;
            let opx = old(shp).frames@[fi as int].pixels@;
            fi < old(shp).frames@.len() ==> frame_becomes(
                *old(shp),
                *final(shp),
                fi as int,
                if target == new_color {
                    opx
                } else {
                    painted(opx, w, h, fill_region(opx, w, h, target, (x as int, y as int)), new_color)
                },
            )
        }),
        fi >= old(shp).frames@.len() ==> *final(shp) == *old(shp),
{
    if fi >= shp.frames.len() {
        return;
    }
    let ghost orig = *shp;
    let ghost opx = orig.frames@[fi as int].pixels@;
    let w = #[verifier::truncate] (shp.width as i32);
    let h = #[verifier::truncate] (shp.height as i32);
    let ghost gw = w as int;
    let ghost gh = h as int;
    proof {
        lemma_paint_nothing(opx, gw, gh, new_color);
        lemma_canvas_point_fits(*shp, fi as int, x as int, y as int);
    }
    let target = frame_get_pixel(shp, fi, x, y);
    if target == new_color {
        return;
    }
    let ghost start = (x as int, y as int);
    let ghost n: nat = if gw > 0 && gh > 0 {
        (gw * gh) as nat
    } else {
        0
    };
    proof {
        if gw > 0 {
            lemma_positive_i32(shp.width);
        }
        if gh > 0 {
            lemma_positive_i32(shp.height);
        }
    }
    let ghost mut r: Set<(int, int)> = Set::empty();
    let mut stack: Vec<(i32, i32)> = Vec::new();
    stack.push((x, y));
    assert(stack@[0] == (x, y));
    loop
        invariant
            fi < shp.frames@.len(),
            canvas_ok(*shp, fi as int),
            shp.width == orig.width,
            shp.height == orig.height,
            orig.frames@.len() == shp.frames@.len(),
            opx == orig.frames@[fi as int].pixels@,
            opx.len() == shp.frames@[fi as int].pixels@.len(),
            w == orig.width as i32,
            h == orig.height as i32,
            gw == w,
            gh == h,
            gw > 0 ==> gw == orig.width,
            gh > 0 ==> gh == orig.height,
            n == if gw > 0 && gh > 0 {
                (gw * gh) as nat
            } else {
                0nat
            },
            target != new_color,
            start == (x as int, y as int),
            target == flood_target(orig, fi as int, x as int, y as int),
            frame_becomes(orig, *shp, fi as int, painted(opx, gw, gh, r, new_color)),
            forall|p: (int, int)| #[trigger] r.contains(p) ==> in_region(opx, gw, gh, target, start, p),
            pending_ok(stack@, r, start),
            closed_but_pending(opx, gw, gh, target, r, stack@),
            fillable(opx, gw, gh, target, start) ==> r.contains(start) || stack_has(stack@, start),
        ensures
            frame_becomes(orig, *shp, fi as int, painted(opx, gw, gh, r, new_color)),
            forall|p: (int, int)| #[trigger] r.contains(p) ==> in_region(opx, gw, gh, target, start, p),
            closed_but_pending(opx, gw, gh, target, r, Seq::empty()),
            fillable(opx, gw, gh, target, start) ==> r.contains(start),
        decreases 5 * count_color(shp.frames@[fi as int].pixels@, n, target) + stack@.len(),
    {
        let ghost cur = shp.frames@[fi as int].pixels@;
        let ghost sb = stack@;
        match stack.pop() {
            None => {
                proof {
                    assert(sb =~= Seq::<(i32, i32)>::empty());
                    if fillable(opx, gw, gh, target, start) && !r.contains(start) {
                        let i = choose|i: int| 0 <= i < sb.len() && sb[i].0 == start.0 && sb[i].1 == start.1;
                    }
                }
                break;
            },
            Some((px, py)) => {
                let ghost s = (px as int, py as int);
                let ghost last = sb.len() - 1;
                assert(sb[last] == (px, py));
                assert(stack@ =~= sb.drop_last());
                if px < 0 || py < 0 || px >= w || py >= h {
                    proof {
                        lemma_pop_skipped(opx, gw, gh, target, r, sb, start);
                    }
                    continue;
                }
                proof {
                    lemma_canvas_point_fits(*shp, fi as int, px as int, py as int);
                    lemma_painted_at(opx, gw, gh, r, new_color, s);
                    lemma_point_index(px as int, py as int, gw, gh);
                }
                let v = frame_get_pixel(shp, fi, px, py);
                if v != target {
                    proof {
                        lemma_pop_skipped(opx, gw, gh, target, r, sb, start);
                    }
                    continue;
                }
                proof {
                    assert(!r.contains(s));
                    assert(fillable(opx, gw, gh, target, s));
                    assert(pending_ok(sb, r, start));
                    if sb[last] == (x, y) {
                        lemma_region_start(opx, gw, gh, target, start);
                    } else {
                        let p = choose|p: (int, int)| r.contains(p) && adjacent(p, s);
                        lemma_region_grows(opx, gw, gh, target, start, p, s);
                    }
                    lemma_paint_one_more(opx, gw, gh, r, new_color, px as int, py as int);
                    lemma_count_update(cur, n, target, py * gw + px, new_color);
                }
                frame_set_pixel(shp, fi, px, py, new_color);
                let ghost r0 = r;
                proof {
                    r = r.insert(s);
                }
                let ghost s0 = stack@;
                stack.push((px - 1, py));
                stack.push((px + 1, py));
                stack.push((px, py - 1));
                stack.push((px, py + 1));
                proof {
                    lemma_after_push(opx, gw, gh, target, r0, sb, stack@, start, px, py);
                }
            },
        }
    }
    proof {
        assert(r =~= fill_region(opx, gw, gh, target, start)) by {
            assert forall|p: (int, int)| #[trigger] fill_region(opx, gw, gh, target, start).contains(p)
                implies r.contains(p) by {
                lemma_region_closed(opx, gw, gh, target, start, r, p);
            }
        }
    }
}

/// Some pending entry is the point `b`.
pub open spec fn stack_has(st: Seq<(i32, i32)>, b: (int, int)) -> bool {
    exists|i: int| 0 <= i < st.len() && #[trigger] st[i].0 == b.0 && st[i].1 == b.1
}

/// Every pending entry is the start or next to a recoloured point.
pub open spec fn pending_ok(st: Seq<(i32, i32)>, r: Set<(int, int)>, start: (int, int)) -> bool {
    forall|i: int|
        0 <= i < st.len() ==> (#[trigger] st[i].0 == start.0 && st[i].1 == start.1) || exists|p: (int, int)|
            r.contains(p) && adjacent(p, (st[i].0 as int, st[i].1 as int))
}

/// Every region-coloured neighbour of a recoloured point is recoloured or
/// pending.
pub open spec fn closed_but_pending(
    px: Seq<u8>,
    w: int,
    h: int,
    target: u8,
    r: Set<(int, int)>,
    st: Seq<(i32, i32)>,
) -> bool {
    forall|a: (int, int), b: (int, int)|
        r.contains(a) && #[trigger] adjacent(a, b) && fillable(px, w, h, target, b) ==> r.contains(b)
            || stack_has(st, b)
}

/// Dropping a pending entry that is off the canvas or no longer of the
/// region's colour keeps the invariants.
proof fn lemma_pop_skipped(
    px: Seq<u8>,
    w: int,
    h: int,
    target: u8,
    r: Set<(int, int)>,
    sb: Seq<(i32, i32)>,
    start: (int, int),
)
    requires
        sb.len() > 0,
        pending_ok(sb, r, start),
        closed_but_pending(px, w, h, target, r, sb),
        fillable(px, w, h, target, start) ==> r.contains(start) || stack_has(sb, start),
        !fillable(px, w, h, target, (sb.last().0 as int, sb.last().1 as int)) || r.contains(
            (sb.last().0 as int, sb.last().1 as int),
        ),
    ensures
        pending_ok(sb.drop_last(), r, start),
        closed_but_pending(px, w, h, target, r, sb.drop_last()),
        fillable(px, w, h, target, start) ==> r.contains(start) || stack_has(sb.drop_last(), start),
{
    let st = sb.drop_last();
    let lp = (sb.last().0 as int, sb.last().1 as int);
    assert forall|i: int| 0 <= i < st.len() implies (#[trigger] st[i].0 == start.0 && st[i].1
        == start.1) || exists|p: (int, int)|
        r.contains(p) && adjacent(p, (st[i].0 as int, st[i].1 as int)) by {
        assert(st[i] == sb[i]);
        assert(st[i].0 == sb[i].0);
    }
    assert forall|a: (int, int), b: (int, int)|
        r.contains(a) && #[trigger] adjacent(a, b) && fillable(px, w, h, target, b) implies r.contains(
        b,
    ) || stack_has(st, b) by {
        if !r.contains(b) {
            let i = choose|i: int| 0 <= i < sb.len() && #[trigger] sb[i].0 == b.0 && sb[i].1 == b.1;
            if i == sb.len() - 1 {
                assert(b == lp);
            } else {
                assert(st[i] == sb[i]);
            }
        }
    }
    if fillable(px, w, h, target, start) && !r.contains(start) {
        let i = choose|i: int| 0 <= i < sb.len() && #[trigger] sb[i].0 == start.0 && sb[i].1 == start.1;
        if i == sb.len() - 1 {
            assert(start == lp);
        } else {
            assert(st[i] == sb[i]);
        }
    }
}

/// Recolouring the popped point `(px, py)` and pushing its four neighbours
/// keeps the invariants.
proof fn lemma_after_push(
    opx: Seq<u8>,
    w: int,
    h: int,
    target: u8,
    r0: Set<(int, int)>,
    sb: Seq<(i32, i32)>,
    st: Seq<(i32, i32)>,
    start: (int, int),
    px: i32,
    py: i32,
)
    requires
        sb.len() > 0,
        sb.last() == (px, py),
        0 <= px < w,
        0 <= py < h,
        w <= i32::MAX,
        h <= i32::MAX,
        st == sb.drop_last().push(((px - 1) as i32, py)).push(((px + 1) as i32, py)).push(
            (px, (py - 1) as i32),
        ).push((px, (py + 1) as i32)),
        pending_ok(sb, r0, start),
        closed_but_pending(opx, w, h, target, r0, sb),
        fillable(opx, w, h, target, start) ==> r0.contains(start) || stack_has(sb, start),
    ensures
        pending_ok(st, r0.insert((px as int, py as int)), start),
        closed_but_pending(opx, w, h, target, r0.insert((px as int, py as int)), st),
        fillable(opx, w, h, target, start) ==> r0.insert((px as int, py as int)).contains(start)
            || stack_has(st, start),
{
    let s = (px as int, py as int);
    let r = r0.insert(s);
    let k = sb.len() - 1;
    assert forall|i: int| 0 <= i < st.len() implies (#[trigger] st[i].0 == start.0 && st[i].1
        == start.1) || exists|p: (int, int)|
        r.contains(p) && adjacent(p, (st[i].0 as int, st[i].1 as int)) by {
        if i < k {
            assert(st[i] == sb[i]);
            assert(st[i].0 == sb[i].0);
            assert((sb[i].0 == start.0 && sb[i].1 == start.1) || exists|p: (int, int)|
                r0.contains(p) && adjacent(p, (sb[i].0 as int, sb[i].1 as int)));
            if !(sb[i].0 == start.0 && sb[i].1 == start.1) {
                let p = choose|p: (int, int)|
                    r0.contains(p) && adjacent(p, (sb[i].0 as int, sb[i].1 as int));
                assert(r.contains(p));
                assert(r.contains(p) && adjacent(p, (st[i].0 as int, st[i].1 as int)));
            }
        } else {
            assert(r.contains(s));
            if i == k {
                assert(st[i] == ((px - 1) as i32, py));
            } else if i == k + 1 {
                assert(st[i] == ((px + 1) as i32, py));
            } else if i == k + 2 {
                assert(st[i] == (px, (py - 1) as i32));
            } else {
                assert(st[i] == (px, (py + 1) as i32));
            }
            assert(r.contains(s) && adjacent(s, (st[i].0 as int, st[i].1 as int)));
        }
    }
    assert forall|a: (int, int), b: (int, int)|
        r.contains(a) && #[trigger] adjacent(a, b) && fillable(opx, w, h, target, b) implies r.contains(
        b,
    ) || stack_has(st, b) by {
        if !r.contains(b) {
            if a == s {
                if b == (s.0 - 1, s.1) {
                    assert(st[k] == ((px - 1) as i32, py));
                } else if b == (s.0 + 1, s.1) {
                    assert(st[k + 1] == ((px + 1) as i32, py));
                } else if b == (s.0, s.1 - 1) {
                    assert(st[k + 2] == (px, (py - 1) as i32));
                } else {
                    assert(st[k + 3] == (px, (py + 1) as i32));
                }
            } else {
                assert(r0.contains(a));
                let i = choose|i: int| 0 <= i < sb.len() && #[trigger] sb[i].0 == b.0 && sb[i].1 == b.1;
                assert(i != k);
                assert(st[i] == sb[i]);
            }
        }
    }
    if fillable(opx, w, h, target, start) && !r.contains(start) {
        let i = choose|i: int| 0 <= i < sb.len() && #[trigger] sb[i].0 == start.0 && sb[i].1 == start.1;
        assert(i != k);
        assert(st[i] == sb[i]);
    }
}

} // verus!
