//! Decoding picture files into RGBA frames: PNG and JPEG files give one
//! picture, a GIF gives every frame of its animation.
use vstd::prelude::*;

use crate::image_io::ImageKind;
use crate::rgba::RgbaImage;

verus! {

/// Why a picture file gave no frames.
#[derive(Debug, Clone)]
pub enum PictureError {
    /// The decoder refused the bytes; its message.
    Decode(String),
    /// A GIF without any frame.
    NoFrames,
    /// A GIF frame with fewer bytes than its canvas needs.
    FrameDecode,
}

/// The format a single picture is decoded as.
#[derive(Debug, Clone, Copy, PartialEq, Eq, Structural)]
pub enum StillFormat {
    Png,
    Jpeg,
}

/// What the `image` crate decodes `bytes` to, read as `format` and turned
/// into RGBA: width, height and pixel bytes; `None` when it refuses them.
pub uninterp spec fn still_picture(bytes: Seq<u8>, format: StillFormat) -> Option<(u32, u32, Seq<u8>)>;

/// What the `gif` crate decodes `bytes` to, with RGBA output: the logical
/// screen width and height, the buffer of each frame read, and whether
/// reading stopped at an error; `None` when the header is refused.
pub uninterp spec fn gif_decoded(bytes: Seq<u8>) -> Option<(u32, u32, Seq<Seq<u8>>, bool)>;

/// `image::load_from_memory_with_format` then `DynamicImage::to_rgba8`.
/// Trusted: the result depends on the bytes and the format alone, and an
/// RGBA buffer holds four bytes per pixel. The error's message is not
/// described.
#[verifier::external_body]
fn decode_still_raw(bytes: &[u8], format: StillFormat) -> (r: Result<(u32, u32, Vec<u8>), String>)
    ensures
        r is Ok <==> still_picture(bytes@, format) is Some,
        r matches Ok(p) ==> still_picture(bytes@, format) == Some((p.0, p.1, p.2@)) && p.2@.len()
            == 4 * (p.0 * p.1),
{
    let f = match format {
        StillFormat::Png => image::ImageFormat::Png,
        StillFormat::Jpeg => image::ImageFormat::Jpeg,
    };
    match image::load_from_memory_with_format(bytes, f) {
        Ok(img) => {
            let rgba = img.to_rgba8();
            Ok((rgba.width(), rgba.height(), rgba.into_raw()))
        },
        Err(e) => Err(e.to_string()),
    }
}

/// `gif::DecodeOptions::read_info` over the bytes (RGBA output), then
/// `Decoder::read_next_frame` until the frames run out or one fails.
/// Trusted: the result depends on the bytes alone. The messages are not
/// described.
#[verifier::external_body]
fn decode_gif_raw(bytes: &[u8]) -> (r: Result<(u32, u32, Vec<Vec<u8>>, Option<String>), String>)
    ensures
        r is Ok <==> gif_decoded(bytes@) is Some,
        r matches Ok(g) ==> gif_decoded(bytes@) == Some(
            (g.0, g.1, buffers_view(g.2@), g.3 is Some),
        ),
{
    let mut options = gif::DecodeOptions::new();
    options.set_color_output(gif::ColorOutput::RGBA);
    let mut decoder = match options.read_info(bytes) {
        Ok(d) => d,
        Err(e) => return Err(e.to_string()),
    };
    let mut frames: Vec<Vec<u8>> = Vec::new();
    loop {
        let (w, h) = (decoder.width() as u32, decoder.height() as u32);
        match decoder.read_next_frame() {
            Ok(Some(frame)) => frames.push(frame.buffer.to_vec()),
            Ok(None) => return Ok((w, h, frames, None)),
            Err(e) => return Ok((w, h, frames, Some(e.to_string()))),
        }
    }
}

/// The contents of a list of buffers.
pub open spec fn buffers_view(bs: Seq<Vec<u8>>) -> Seq<Seq<u8>> {
    bs.map_values(|b: Vec<u8>| b@)
}

/// Pictures as plain values: width, height and pixel bytes.
pub open spec fn pictures_view(v: Seq<RgbaImage>) -> Seq<(u32, u32, Seq<u8>)> {
    v.map_values(|p: RgbaImage| (p.width, p.height, p.data@))
}

/// The picture a GIF frame buffer gives on a `w` by `h` screen: its first
/// `4 * w * h` bytes.
pub open spec fn gif_picture(w: u32, h: u32, buf: Seq<u8>) -> (u32, u32, Seq<u8>) {
    (w, h, buf.take(4 * (w * h)))
}

/// Some frame buffer is too short for the `w` by `h` screen.
pub open spec fn some_frame_short(w: u32, h: u32, fs: Seq<Seq<u8>>) -> bool {
    exists|i: int| 0 <= i < fs.len() && #[trigger] fs[i].len() < 4 * (w * h)
}

/// What the frames a GIF decoder read give: the first short frame buffer
/// fails, then a decoding error, then a GIF without frames; otherwise one
/// picture per frame.
pub open spec fn gif_outcome(
    res: Result<Vec<RgbaImage>, PictureError>,
    w: u32,
    h: u32,
    fs: Seq<Seq<u8>>,
    failed: bool,
) -> bool {
    if some_frame_short(w, h, fs) {
        res matches Err(PictureError::FrameDecode)
    } else if failed {
        res matches Err(PictureError::Decode(_))
    } else if fs.len() == 0 {
        res matches Err(PictureError::NoFrames)
    } else {
        match res {
            Ok(v) => {
                &&& pictures_view(v@) == fs.map_values(|b: Seq<u8>| gif_picture(w, h, b))
                &&& forall|i: int| 0 <= i < v@.len() ==> #[trigger] v@[i].wf()
            },
            Err(_) => false,
        }
    }
}

/// The format a picture of kind `kind` (not a GIF) is read as.
pub open spec fn still_format(kind: ImageKind) -> StillFormat {
    if kind == ImageKind::Jpeg {
        StillFormat::Jpeg
    } else {
        StillFormat::Png
    }
}

/// Turns the frames a GIF decoder read on a `w` by `h` screen into
/// pictures; `failed` is the error that stopped the reading, if any.
pub fn gif_frames_to_pictures(w: u32, h: u32, bufs: Vec<Vec<u8>>, failed: Option<String>) -> (res:
    Result<Vec<RgbaImage>, PictureError>)
    ensures
        gif_outcome(res, w, h, buffers_view(bufs@), failed is Some),
        !some_frame_short(w, h, buffers_view(bufs@)) && failed is Some ==> res == Err::<
            Vec<RgbaImage>,
            PictureError,
        >(PictureError::Decode(failed->0)),
{
    let ghost fs = buffers_view(bufs@);
    assert((w as u128) * (h as u128) <= 0xffff_ffff * 0xffff_ffff) by (nonlinear_arith)
        requires
            w <= 0xffff_ffff,
            h <= 0xffff_ffff,
    ;
    let wh: u128 = (w as u128) * (h as u128);
    let need: u128 = 4 * wh;
    let mut i: usize = 0;
    while i < bufs.len()
        invariant
            i <= bufs@.len(),
            fs == buffers_view(bufs@),
            need == 4 * (w * h),
            forall|j: int| 0 <= j < i ==> #[trigger] fs[j].len() >= 4 * (w * h),
        decreases bufs@.len() - i,
    {
        assert(fs[i as int] == bufs@[i as int]@);
        if (bufs[i].len() as u128) < need {
            assert(fs[i as int].len() < 4 * (w * h));
            return Err(PictureError::FrameDecode);
        }
        i = i + 1;
    }
    assert(!some_frame_short(w, h, fs));
    if let Some(msg) = failed {
        return Err(PictureError::Decode(msg));
    }
    if bufs.len() == 0 {
        return Err(PictureError::NoFrames);
    }
    let mut bufs = bufs;
    let ghost orig = bufs@;
    let mut out: Vec<RgbaImage> = Vec::new();
    let mut k: usize = 0;
    while k < bufs.len()
        invariant
            k <= bufs@.len(),
            bufs@.len() == orig.len(),
            fs == buffers_view(orig),
            need == 4 * (w * h),
            forall|j: int| k <= j < bufs@.len() ==> #[trigger] bufs@[j] == orig[j],
            forall|j: int| 0 <= j < fs.len() ==> #[trigger] fs[j].len() >= 4 * (w * h),
            out@.len() == k,
            forall|j: int|
                0 <= j < k ==> (#[trigger] pictures_view(out@)[j]) == gif_picture(w, h, fs[j]),
            forall|j: int| 0 <= j < k ==> #[trigger] out@[j].wf(),
        decreases bufs@.len() - k,
    {
        let mut data: Vec<u8> = Vec::new();
        std::mem::swap(&mut data, &mut bufs[k]);
        assert(data@ == fs[k as int]);
        assert(need <= data@.len());
        data.truncate(need as usize);
        let pic = RgbaImage { width: w, height: h, data };
        assert(pic.data@ =~= fs[k as int].take(4 * (w * h)));
        let ghost before = out@;
        out.push(pic);
        assert forall|j: int| 0 <= j <= k implies (#[trigger] pictures_view(out@)[j]) == gif_picture(
            w,
            h,
            fs[j],
        ) by {
            assert(pictures_view(out@)[j] == (out@[j].width, out@[j].height, out@[j].data@));
            if j < k {
                assert(out@[j] == before[j]);
                assert(pictures_view(before)[j] == (before[j].width, before[j].height, before[j].data@));
            } else {
                assert(out@[j] == pic);
                assert(gif_picture(w, h, fs[j]) == (w, h, fs[k as int].take(4 * (w * h))));
            }
        }
        k = k + 1;
    }
    assert(pictures_view(out@) =~= fs.map_values(|b: Seq<u8>| gif_picture(w, h, b)));
    Ok(out)
}

/// Decodes a picture file of kind `kind` into RGBA frames: one picture for
/// PNG, JPEG and animated PNG (read as PNG), every frame for a GIF.
pub fn decode_picture(bytes: &[u8], kind: ImageKind) -> (res: Result<Vec<RgbaImage>, PictureError>)
    ensures
        kind != ImageKind::Gif ==> match still_picture(bytes@, still_format(kind)) {
            None => res matches Err(PictureError::Decode(_)),
            Some(p) => match res {
                Ok(v) => v@.len() == 1 && pictures_view(v@)[0] == p && v@[0].wf(),
                Err(_) => false,
            },
        },
        kind == ImageKind::Gif ==> match gif_decoded(bytes@) {
            None => res matches Err(PictureError::Decode(_)),
            Some(g) => gif_outcome(res, g.0, g.1, g.2, g.3),
        },
{
    match kind {
        ImageKind::Gif => match decode_gif_raw(bytes) {
            Ok((w, h, bufs, failed)) => gif_frames_to_pictures(w, h, bufs, failed),
            Err(msg) => Err(PictureError::Decode(msg)),
        },
        _ => {
            let format = if let ImageKind::Jpeg = kind {
                StillFormat::Jpeg
            } else {
                StillFormat::Png
            };
            match decode_still_raw(bytes, format) {
                Ok((w, h, data)) => {
                    let mut v: Vec<RgbaImage> = Vec::new();
                    v.push(RgbaImage { width: w, height: h, data });
                    Ok(v)
                },
                Err(msg) => Err(PictureError::Decode(msg)),
            }
        },
    }
}

} // verus!
