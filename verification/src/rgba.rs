//! An RGBA picture held as plain bytes: four bytes (R, G, B, A) per pixel,
//! row by row.
use vstd::prelude::*;

verus! {

/// A `width` by `height` RGBA picture.
#[derive(Clone)]
pub struct RgbaImage {
    pub width: u32,
    pub height: u32,
    pub data: Vec<u8>,
}

impl RgbaImage {
    /// The byte buffer holds exactly four bytes per pixel.
    pub open spec fn wf(&self) -> bool {
        self.data@.len() == 4 * (self.width * self.height)
    }

    /// Channel `c` (0 = R, 1 = G, 2 = B, 3 = A) of the pixel at `(x, y)`.
    pub open spec fn channel(&self, x: int, y: int, c: int) -> u8 {
        self.data@[4 * (y * self.width + x) + c]
    }

    /// The pixel at `(x, y)` as `[r, g, b, a]`.
    pub fn get_pixel(&self, x: u32, y: u32) -> (px: [u8; 4])
        requires
            self.wf(),
            x < self.width,
            y < self.height,
        ensures
            px@ == seq![
                self.channel(x as int, y as int, 0),
                self.channel(x as int, y as int, 1),
                self.channel(x as int, y as int, 2),
                self.channel(x as int, y as int, 3),
            ],
    {
        proof {
            lemma_pixel_offset(x as int, y as int, self.width as int, self.height as int);
            assert(self.data.len() == self.data@.len());
        }
        let w = self.width as usize;
        let base = 4 * ((y as usize) * w + x as usize);
        let px = [self.data[base], self.data[base + 1], self.data[base + 2], self.data[base + 3]];
        assert(px@ =~= seq![
            self.channel(x as int, y as int, 0),
            self.channel(x as int, y as int, 1),
            self.channel(x as int, y as int, 2),
            self.channel(x as int, y as int, 3),
        ]);
        px
    }
}

/// The bytes of a `w` by `h` RGBA picture scaled to `nw` by `nh` by the
/// nearest-neighbour filter of the `image` crate.
pub uninterp spec fn nearest_resized(data: Seq<u8>, w: u32, h: u32, nw: u32, nh: u32) -> Seq<u8>;

/// `image::imageops::resize` with `FilterType::Nearest` on the `w` by `h`
/// picture held in `data`. Trusted: the result depends on the arguments
/// alone and is an `nw` by `nh` picture, four bytes per pixel. The sizes are
/// non-zero and the buffers it allocates (the picture, and one of `w` by
/// `nh` pixels on the way) fit in memory.
#[verifier::external_body]
fn resize_nearest_raw(data: &Vec<u8>, w: u32, h: u32, nw: u32, nh: u32) -> (out: Vec<u8>)
    requires
        data@.len() == 4 * (w * h),
        0 < w,
        0 < h,
        0 < nw,
        0 < nh,
        4 * (w * nh) <= usize::MAX,
        4 * (nw * nh) <= usize::MAX,
    ensures
        out@ == nearest_resized(data@, w, h, nw, nh),
        out@.len() == 4 * (nw * nh),
{
    let src = image::RgbaImage::from_raw(w, h, data.clone()).unwrap();
    image::imageops::resize(&src, nw, nh, image::imageops::FilterType::Nearest).into_raw()
}

impl RgbaImage {
    /// The picture scaled to `nw` by `nh` pixels, nearest neighbour.
    pub fn resized_nearest(&self, nw: u32, nh: u32) -> (r: RgbaImage)
        requires
            self.wf(),
            0 < self.width,
            0 < self.height,
            0 < nw,
            0 < nh,
            4 * (self.width * nh) <= usize::MAX,
            4 * (nw * nh) <= usize::MAX,
        ensures
            r.width == nw,
            r.height == nh,
            r.wf(),
            r.data@ == nearest_resized(self.data@, self.width, self.height, nw, nh),
    {
        let data = resize_nearest_raw(&self.data, self.width, self.height, nw, nh);
        RgbaImage { width: nw, height: nh, data }
    }
}

/// The four bytes of pixel `(x, y)` lie inside a `w * h * 4` buffer.
pub proof fn lemma_pixel_offset(x: int, y: int, w: int, h: int)
    requires
        0 <= x < w,
        0 <= y < h,
    ensures
        0 <= y * w + x < w * h,
        4 * (y * w + x) + 4 <= 4 * (w * h),
{
    assert(0 <= y * w) by (nonlinear_arith)
        requires
            0 <= y,
            0 <= w,
    ;
    assert(y * w + w <= w * h) by (nonlinear_arith)
        requires
            y + 1 <= h,
            0 <= w,
    ;
}

} // verus!
