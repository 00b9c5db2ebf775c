//! Turning a frame of palette indices into RGBA colours, for export and
//! preview. Palette index 0 is transparent.
use vstd::prelude::*;

use crate::palette::Palette;
use crate::rgba::RgbaImage;
use crate::shp::SHP;
use crate::shp_format::ShpError;

verus! {

/// Frames of more pixels than this are not previewed.
pub const PREVIEW_MAX_PIXELS: u64 = 64_000_000;

/// The RGBA bytes shown for palette index `idx`: the palette colour, fully
/// transparent for index 0 and opaque otherwise.
pub open spec fn rgba_of_index(pal: Palette, idx: u8) -> Seq<u8> {
    let c = pal.colors@[idx as int];
    seq![c.r, c.g, c.b, if idx == 0 { 0u8 } else { 255u8 }]
}

/// The RGBA bytes of the first `n` pixels of `px`.
pub open spec fn rgba_of_pixels(pal: Palette, px: Seq<u8>, n: int) -> Seq<u8> {
    Seq::new((4 * n) as nat, |k: int| rgba_of_index(pal, px[k / 4])[k % 4])
}

impl SHP {
    /// Frame `frame` as an RGBA picture of the canvas size, each pixel
    /// coloured by the palette (see `rgba_of_index`).
    pub fn export_frame_rgba(&self, frame: usize, pal: &Palette) -> (res: Result<
        RgbaImage,
        ShpError,
    >)
        requires
            frame < self.frames@.len() ==> {
                &&& self.width * self.height <= u32::MAX + 1
                &&& 4 * (self.width * self.height) <= usize::MAX
                &&& self.frames@[frame as int].pixels@.len() >= self.width * self.height
            },
        ensures
            frame >= self.frames@.len() ==> res == Err::<RgbaImage, ShpError>(
                ShpError::FrameOutOfRange,
            ),
            frame < self.frames@.len() ==> (res matches Ok(img) && img.width == self.width
                && img.height == self.height && img.wf() && img.data@ == rgba_of_pixels(
                *pal,
                self.frames@[frame as int].pixels@,
                self.width * self.height,
            )),
    {
        if frame >= self.frames.len() {
            return Err(ShpError::FrameOutOfRange);
        }
        let n: usize = (self.width as usize) * (self.height as usize);
        let px = &self.frames[frame].pixels;
        let mut data: Vec<u8> = Vec::new();
        let mut i: usize = 0;
        while i < n
            invariant
                i <= n,
                n == self.width * self.height,
                4 * n <= usize::MAX,
                px@.len() >= n,
                pal.colors@.len() == 256,
                data@ == rgba_of_pixels(*pal, px@, i as int),
            decreases n - i,
        {
            let idx = px[i];
            let c = pal.colors[idx as usize];
            let a: u8 = if idx == 0 {
                0
            } else {
                255
            };
            data.push(c.r);
            data.push(c.g);
            data.push(c.b);
            data.push(a);
            i = i + 1;
            assert(data@ =~= rgba_of_pixels(*pal, px@, i as int));
        }
        Ok(RgbaImage { width: self.width, height: self.height, data })
    }

    /// The frame a preview of `frame` shows: `None` when the canvas is empty
    /// or larger than `PREVIEW_MAX_PIXELS` (the preview then shows a single
    /// placeholder pixel), else `frame`, or frame 0 when `frame` does not
    /// exist.
    pub fn texture_frame_index(&self, frame: usize) -> (res: Option<usize>)
        ensures
            self.width * self.height == 0 || self.width * self.height > PREVIEW_MAX_PIXELS ==> res
                is None,
            0 < self.width * self.height <= PREVIEW_MAX_PIXELS ==> res == Some(
                if frame < self.frames@.len() {
                    frame
                } else {
                    0usize
                },
            ),
    {
        proof {
            assert(self.width * self.height <= u32::MAX * u32::MAX) by (nonlinear_arith)
                requires
                    self.width <= u32::MAX,
                    self.height <= u32::MAX,
            ;
        }
        let pixels = (self.width as u64) * (self.height as u64);
        if pixels == 0 || pixels > PREVIEW_MAX_PIXELS {
            return None;
        }
        if frame < self.frames.len() {
            Some(frame)
        } else {
            Some(0)
        }
    }
}

/// Each exported pixel carries the colour of the palette entry at its
/// index: bytes `4i`, `4i + 1` and `4i + 2` are that entry's red, green and
/// blue, and byte `4i + 3` is 0 for index 0 and 255 otherwise.
pub proof fn lemma_export_colours(pal: Palette, px: Seq<u8>, n: int)
    requires
        0 <= n <= px.len(),
    ensures
        rgba_of_pixels(pal, px, n).len() == 4 * n,
        forall|i: int|
            0 <= i < n ==> {
                let c = pal.colors@[#[trigger] px[i] as int];
                let out = rgba_of_pixels(pal, px, n);
                &&& out[4 * i] == c.r
                &&& out[4 * i + 1] == c.g
                &&& out[4 * i + 2] == c.b
                &&& out[4 * i + 3] == if px[i] == 0 {
                    0u8
                } else {
                    255u8
                }
            },
{
    assert forall|i: int| 0 <= i < n implies {
        let c = pal.colors@[#[trigger] px[i] as int];
        let out = rgba_of_pixels(pal, px, n);
        &&& out[4 * i] == c.r
        &&& out[4 * i + 1] == c.g
        &&& out[4 * i + 2] == c.b
        &&& out[4 * i + 3] == if px[i] == 0 {
            0u8
        } else {
            255u8
        }
    } by {
        assert((4 * i) / 4 == i && (4 * i) % 4 == 0);
        assert((4 * i + 1) / 4 == i && (4 * i + 1) % 4 == 1);
        assert((4 * i + 2) / 4 == i && (4 * i + 2) % 4 == 2);
        assert((4 * i + 3) / 4 == i && (4 * i + 3) % 4 == 3);
    }
}

} // verus!
