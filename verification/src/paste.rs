//! Pasting an RGBA picture into a frame: every pixel that is opaque enough
//! is replaced by the nearest palette entry.
use vstd::prelude::*;

use crate::color_match::{best_index_rgb, nearest_index, Rgb};
use crate::palette::Palette;
use crate::rgba::RgbaImage;
use crate::shp::SHP;
use crate::draw::{lemma_index_point, lemma_point_index, lemma_positive_i32};

verus! {

/// The lowest alpha at which a picture pixel is pasted.
pub const PASTE_MIN_ALPHA: u8 = 8;

/// The colour of picture pixel `(x, y)`.
pub open spec fn picture_rgb(img: RgbaImage, x: int, y: int) -> Rgb {
    Rgb { r: img.channel(x, y, 0), g: img.channel(x, y, 1), b: img.channel(x, y, 2) }
}

/// What pasting `img` with its top-left corner at `(dx, dy)` puts at canvas
/// point `(tx, ty)`: the nearest palette index of the picture pixel that
/// lands there, when there is one and its alpha is at least 8.
pub open spec fn paste_value(img: RgbaImage, pal: Palette, dx: int, dy: int, tx: int, ty: int) -> Option<u8> {
    let sx = tx - dx;
    let sy = ty - dy;
    if 0 <= sx < img.width as i32 as int && 0 <= sy < img.height as i32 as int && img.channel(
        sx,
        sy,
        3,
    ) >= PASTE_MIN_ALPHA {
        Some(nearest_index(picture_rgb(img, sx, sy), pal.colors@) as u8)
    } else {
        None
    }
}

/// Pixel `i` of a frame after pasting, counting only the picture pixels
/// `(sx, sy)` with `sy < py`, or `sy == py` and `sx < px`. The canvas is
/// `fw` by `fh`; pixels beyond it are left alone.
pub open spec fn pasted_pixel(
    old: Seq<u8>,
    fw: int,
    fh: int,
    img: RgbaImage,
    pal: Palette,
    dx: int,
    dy: int,
    py: int,
    px: int,
    i: int,
) -> u8 {
    if 0 < fw && 0 < fh && 0 <= i < fw * fh {
        let tx = i % fw;
        let ty = i / fw;
        let sx = tx - dx;
        let sy = ty - dy;
        if (sy < py || (sy == py && sx < px)) && paste_value(img, pal, dx, dy, tx, ty) is Some {
            paste_value(img, pal, dx, dy, tx, ty)->0
        } else {
            old[i]
        }
    } else {
        old[i]
    }
}

/// A frame after pasting the picture pixels up to `(px, py)`.
pub open spec fn pasted_upto(
    old: Seq<u8>,
    fw: int,
    fh: int,
    img: RgbaImage,
    pal: Palette,
    dx: int,
    dy: int,
    py: int,
    px: int,
) -> Seq<u8> {
    Seq::new(old.len(), |i: int| pasted_pixel(old, fw, fh, img, pal, dx, dy, py, px, i))
}

/// A frame after pasting the whole picture: each canvas pixel `i` (at
/// `x = i % fw`, `y = i / fw`) that a pasted picture pixel lands on takes
/// its `paste_value`; every other pixel keeps its value.
pub open spec fn paste_result(
    old: Seq<u8>,
    fw: int,
    fh: int,
    img: RgbaImage,
    pal: Palette,
    dx: int,
    dy: int,
) -> Seq<u8> {
    Seq::new(
        old.len(),
        |i: int|
            if 0 < fw && 0 < fh && 0 <= i < fw * fh && paste_value(
                img,
                pal,
                dx,
                dy,
                i % fw,
                i / fw,
            ) is Some {
                paste_value(img, pal, dx, dy, i % fw, i / fw)->0
            } else {
                old[i]
            },
    )
}

/// Pasting at `(dx, dy)` into frame `frame` needs no arithmetic that
/// overflows: every picture pixel that is pasted has a target point that
/// fits `i32`, and a target on the canvas has an index that fits `u32` and
/// the frame.
pub open spec fn paste_fits(shp: SHP, frame: int, img: RgbaImage, dx: int, dy: int) -> bool {
    let fw = shp.width as i32 as int;
    let fh = shp.height as i32 as int;
    frame < shp.frames@.len() ==> forall|x: int, y: int|
        0 <= x < img.width as i32 as int && 0 <= y < img.height as i32 as int
            && #[trigger] img.channel(x, y, 3) >= PASTE_MIN_ALPHA ==> {
            &&& i32::MIN <= x + dx <= i32::MAX
            &&& i32::MIN <= y + dy <= i32::MAX
            &&& (0 <= x + dx < fw && 0 <= y + dy < fh) ==> {
                &&& (y + dy) * shp.width + (x + dx) <= u32::MAX
                &&& (y + dy) * shp.width + (x + dx) < shp.frames@[frame].pixels@.len()
            }
        }
}

impl SHP {
    /// Pastes `rgba` into frame `frame` with its top-left corner at
    /// `(dest_x, dest_y)`: each picture pixel with alpha at least 8 that
    /// lands on the canvas becomes the nearest palette index of its colour.
    /// Does nothing when the frame does not exist.
    pub fn paste_rgba_at(
        &mut self,
        frame: usize,
        rgba: &RgbaImage,
        dest_x: i32,
        dest_y: i32,
        pal: &Palette,
    )
        requires
            rgba.wf(),
            paste_fits(*old(self), frame as int, *rgba, dest_x as int, dest_y as int),
        ensures
            final(self).width == old(self).width,
            final(self).height == old(self).height,
            final(self).frames@.len() == old(self).frames@.len(),
            forall|j: int|
                0 <= j < old(self).frames@.len() && j != frame ==> #[trigger] final(self).frames@[j]
                    == old(self).frames@[j],
            frame < old(self).frames@.len() ==> final(self).frames@[frame as int].pixels@
                == paste_result(
                old(self).frames@[frame as int].pixels@,
                old(self).width as i32 as int,
                old(self).height as i32 as int,
                *rgba,
                *pal,
                dest_x as int,
                dest_y as int,
            ),
            frame >= old(self).frames@.len() ==> *final(self) == *old(self),
    {
        if frame >= self.frames.len() {
            return;
        }
        let ghost old_px = self.frames@[frame as int].pixels@;
        let ghost old_frames = self.frames@;
        let fw = #[verifier::truncate] (self.width as i32);
        let fh = #[verifier::truncate] (self.height as i32);
        let iw = #[verifier::truncate] (rgba.width as i32);
        let ih = #[verifier::truncate] (rgba.height as i32);
        let ghost img = *rgba;
        let ghost p = *pal;
        let ghost dx = dest_x as int;
        let ghost dy = dest_y as int;
        assert(old_px =~= pasted_upto(old_px, fw as int, fh as int, img, p, dx, dy, 0, 0));
        let mut y: i32 = 0;
        while y < ih
            invariant
                0 <= y,
                y <= ih || ih <= 0,
                img == *rgba,
                p == *pal,
                rgba.wf(),
                iw == rgba.width as i32,
                ih == rgba.height as i32,
                fw == self.width as i32,
                fh == self.height as i32,
                dx == dest_x,
                dy == dest_y,
                frame < self.frames@.len(),
                self.width == old(self).width,
                self.height == old(self).height,
                self.frames@.len() == old_frames.len(),
                forall|j: int|
                    0 <= j < old_frames.len() && j != frame ==> #[trigger] self.frames@[j]
                        == old_frames[j],
                paste_fits(*self, frame as int, *rgba, dx, dy),
                self.frames@[frame as int].pixels@ == pasted_upto(
                    old_px,
                    fw as int,
                    fh as int,
                    img,
                    p,
                    dx,
                    dy,
                    y as int,
                    0,
                ),
            decreases ih - y,
        {
            let mut x: i32 = 0;
            while x < iw
                invariant
                    0 <= y < ih,
                    0 <= x,
                    x <= iw || iw <= 0,
                    img == *rgba,
                    p == *pal,
                    rgba.wf(),
                    iw == rgba.width as i32,
                    ih == rgba.height as i32,
                    fw == self.width as i32,
                    fh == self.height as i32,
                    dx == dest_x,
                    dy == dest_y,
                    frame < self.frames@.len(),
                    self.width == old(self).width,
                    self.height == old(self).height,
                    self.frames@.len() == old_frames.len(),
                    forall|j: int|
                        0 <= j < old_frames.len() && j != frame ==> #[trigger] self.frames@[j]
                            == old_frames[j],
                    paste_fits(*self, frame as int, *rgba, dx, dy),
                    self.frames@[frame as int].pixels@ == pasted_upto(
                        old_px,
                        fw as int,
                        fh as int,
                        img,
                        p,
                        dx,
                        dy,
                        y as int,
                        x as int,
                    ),
                decreases iw - x,
            {
                let ghost before = self.frames@[frame as int].pixels@;
                proof {
                    assert(0 < iw);
                    lemma_positive_i32(rgba.width);
                    lemma_positive_i32(rgba.height);
                }
                let px = rgba.get_pixel(x as u32, y as u32);
                if px[3] >= PASTE_MIN_ALPHA {
                    let idx = best_index_rgb(Rgb::from_rgb(px[0], px[1], px[2]), &pal.colors);
                    assert(img.channel(x as int, y as int, 3) >= PASTE_MIN_ALPHA);
                    let tx = x + dest_x;
                    let ty = y + dest_y;
                    if tx >= 0 && ty >= 0 && tx < fw && ty < fh {
                        proof {
                            lemma_positive_i32(self.width);
                            lemma_point_index(tx as int, ty as int, fw as int, fh as int);
                        }
                        let i = (ty as u32 * self.width + tx as u32) as usize;
                        self.frames[frame].pixels[i] = idx;
                        proof {
                            let after = self.frames@[frame as int].pixels@;
                            assert forall|j: int| 0 <= j < after.len() implies #[trigger] after[j]
                                == pasted_pixel(
                                old_px,
                                fw as int,
                                fh as int,
                                img,
                                p,
                                dx,
                                dy,
                                y as int,
                                x + 1,
                                j,
                            ) by {
                                if 0 <= j < fw * fh {
                                    lemma_index_point(j, fw as int, fh as int);
                                }
                            }
                            assert(after =~= pasted_upto(
                                old_px,
                                fw as int,
                                fh as int,
                                img,
                                p,
                                dx,
                                dy,
                                y as int,
                                x + 1,
                            ));
                        }
                    } else {
                        proof {
                            assert forall|j: int| 0 <= j < before.len() implies #[trigger] before[j]
                                == pasted_pixel(
                                old_px,
                                fw as int,
                                fh as int,
                                img,
                                p,
                                dx,
                                dy,
                                y as int,
                                x + 1,
                                j,
                            ) by {
                                if 0 < fw && 0 < fh && 0 <= j < fw * fh {
                                    lemma_index_point(j, fw as int, fh as int);
                                }
                            }
                            assert(before =~= pasted_upto(
                                old_px,
                                fw as int,
                                fh as int,
                                img,
                                p,
                                dx,
                                dy,
                                y as int,
                                x + 1,
                            ));
                        }
                    }
                } else {
                    proof {
                        assert forall|j: int| 0 <= j < before.len() implies #[trigger] before[j]
                            == pasted_pixel(
                            old_px,
                            fw as int,
                            fh as int,
                            img,
                            p,
                            dx,
                            dy,
                            y as int,
                            x + 1,
                            j,
                        ) by {
                            if 0 < fw && 0 < fh && 0 <= j < fw * fh {
                                lemma_index_point(j, fw as int, fh as int);
                            }
                        }
                        assert(before =~= pasted_upto(
                            old_px,
                            fw as int,
                            fh as int,
                            img,
                            p,
                            dx,
                            dy,
                            y as int,
                            x + 1,
                        ));
                    }
                }
                x = x + 1;
            }
            proof {
                let cur = self.frames@[frame as int].pixels@;
                assert forall|j: int| 0 <= j < cur.len() implies #[trigger] cur[j] == pasted_pixel(
                    old_px,
                    fw as int,
                    fh as int,
                    img,
                    p,
                    dx,
                    dy,
                    y + 1,
                    0,
                    j,
                ) by {
                    if 0 < fw && 0 < fh && 0 <= j < fw * fh {
                        lemma_index_point(j, fw as int, fh as int);
                    }
                }
                assert(cur =~= pasted_upto(
                    old_px,
                    fw as int,
                    fh as int,
                    img,
                    p,
                    dx,
                    dy,
                    y + 1,
                    0,
                ));
            }
            y = y + 1;
        }
        proof {
            let cur = self.frames@[frame as int].pixels@;
            assert(cur =~= paste_result(old_px, fw as int, fh as int, img, p, dx, dy));
        }
    }
}

/// The offset that centres a span of `pic` pixels on a span of `canvas`
/// pixels: half the difference, rounded toward zero.
pub open spec fn center_offset(canvas: int, pic: int) -> int {
    let d = canvas - pic;
    if d >= 0 {
        d / 2
    } else {
        -((-d) / 2)
    }
}

impl SHP {
    /// Pastes `rgba` into frame `frame`, centred on the canvas (see
    /// `paste_rgba_at`). Does nothing when the frame does not exist.
    pub fn paste_rgba_into_frame(&mut self, frame: usize, rgba: &RgbaImage, pal: &Palette)
        requires
            rgba.wf(),
            frame < old(self).frames@.len() ==> {
                &&& i32::MIN <= old(self).width as i32 - rgba.width as i32 <= i32::MAX
                &&& i32::MIN <= old(self).height as i32 - rgba.height as i32 <= i32::MAX
                &&& paste_fits(
                    *old(self),
                    frame as int,
                    *rgba,
                    center_offset(old(self).width as i32 as int, rgba.width as i32 as int),
                    center_offset(old(self).height as i32 as int, rgba.height as i32 as int),
                )
            },
        ensures
            final(self).width == old(self).width,
            final(self).height == old(self).height,
            final(self).frames@.len() == old(self).frames@.len(),
            forall|j: int|
                0 <= j < old(self).frames@.len() && j != frame ==> #[trigger] final(self).frames@[j]
                    == old(self).frames@[j],
            frame < old(self).frames@.len() ==> final(self).frames@[frame as int].pixels@
                == paste_result(
                old(self).frames@[frame as int].pixels@,
                old(self).width as i32 as int,
                old(self).height as i32 as int,
                *rgba,
                *pal,
                center_offset(old(self).width as i32 as int, rgba.width as i32 as int),
                center_offset(old(self).height as i32 as int, rgba.height as i32 as int),
            ),
            frame >= old(self).frames@.len() ==> *final(self) == *old(self),
    {
        if frame >= self.frames.len() {
            return;
        }
        let fw = #[verifier::truncate] (self.width as i32);
        let fh = #[verifier::truncate] (self.height as i32);
        let iw = #[verifier::truncate] (rgba.width as i32);
        let ih = #[verifier::truncate] (rgba.height as i32);
        let offx = (fw - iw) / 2;
        let offy = (fh - ih) / 2;
        self.paste_rgba_at(frame, rgba, offx, offy, pal);
    }
}

} // verus!
