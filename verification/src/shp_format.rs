//! The SHP file layout as mathematics: how a byte sequence decodes into a
//! canvas size and a list of frames, and how a canvas is encoded.
//!
//! Layout (all integers little endian):
//! - file header, 8 bytes: `u16` zero, `u16` width, `u16` height, `u16` frame count;
//! - one 24-byte header per frame: `u16` x, y, w, h; `u32` flags; 4 colour
//!   bytes; `i32` zero; `u32` data offset;
//! - frame data, found at each frame's data offset.
//!
//! A frame's rows are stored in one of three ways, chosen by the low two bits
//! of its flags: run-length encoded (both bits set), plain scanlines (bit 1
//! set, bit 0 clear) or an uncompressed block (any other value).
use vstd::prelude::*;

verus! {

/// Why a byte sequence is not an SHP file, or why an SHP cannot be written.
#[derive(Debug, Clone, Copy, PartialEq, Eq, Structural)]
pub enum ShpError {
    /// Fewer than the 8 bytes of the file header.
    HeaderTooShort,
    /// The first `u16` of the file is not zero.
    NotShp,
    /// Width, height or frame count is zero.
    InvalidSize,
    /// A frame's data offset lies at or beyond the end of the file.
    OffsetOutOfRange,
    /// The data ended before a header or a row was complete.
    UnexpectedEof,
    /// An SHP without frames cannot be written.
    NoFrames,
    /// A frame index beyond the last frame.
    FrameOutOfRange,
}

/// The header of one frame, as read from the file (the colour bytes and the
/// reserved `i32` are read past and not kept).
#[derive(Debug, Clone, Copy, PartialEq, Eq, Structural)]
pub struct FrameHeader {
    pub x: u16,
    pub y: u16,
    pub w: u16,
    pub h: u16,
    pub flags: u32,
    pub data_off: u32,
}

/// How the rows of a frame are stored.
#[derive(Debug, Clone, Copy, PartialEq, Eq, Structural)]
pub enum RowEncoding {
    /// Each row: `u16` length (counting itself), then bytes; a zero byte is
    /// followed by the number of transparent pixels to skip.
    Rle,
    /// Each row: `u16` length (counting itself), then one byte per pixel.
    Scanline,
    /// `h` rows of exactly `w` bytes.
    Raw,
}

/// The mathematical value of an SHP: canvas size and the pixels of each frame.
pub struct ShpModel {
    pub width: u32,
    pub height: u32,
    pub frames: Seq<Seq<u8>>,
}

/// Little-endian `u16` at position `i`.
pub open spec fn le16(s: Seq<u8>, i: int) -> int {
    s[i] + 256 * s[i + 1]
}

/// Little-endian `u32` at position `i`.
pub open spec fn le32(s: Seq<u8>, i: int) -> int {
    s[i] + 256 * s[i + 1] + 65536 * s[i + 2] + 16777216 * s[i + 3]
}

/// The two bytes of `v`, least significant first.
pub open spec fn le16_bytes(v: int) -> Seq<u8> {
    seq![byte0(v), byte1(v)]
}

/// The four bytes of `v`, least significant first.
pub open spec fn le32_bytes(v: int) -> Seq<u8> {
    seq![byte0(v), byte1(v), byte2(v), byte3(v)]
}

/// Position of the header of frame `i`.
pub open spec fn frame_header_pos(i: int) -> int {
    8 + 24 * i
}

/// The header of frame `i`.
pub open spec fn frame_header_at(s: Seq<u8>, i: int) -> FrameHeader {
    let b = frame_header_pos(i);
    FrameHeader {
        x: le16(s, b) as u16,
        y: le16(s, b + 2) as u16,
        w: le16(s, b + 4) as u16,
        h: le16(s, b + 6) as u16,
        flags: le32(s, b + 8) as u32,
        data_off: le32(s, b + 20) as u32,
    }
}

/// The row storage selected by a frame's flags.
pub open spec fn row_encoding(flags: u32) -> RowEncoding {
    if flags & 3 == 3 {
        RowEncoding::Rle
    } else if flags & 2 == 2 && flags & 1 == 0 {
        RowEncoding::Scanline
    } else {
        RowEncoding::Raw
    }
}

/// A canvas of `w * h` transparent (index 0) pixels.
pub open spec fn blank_canvas(w: int, h: int) -> Seq<u8> {
    Seq::new((w * h) as nat, |i: int| 0u8)
}

/// Writes `v` at `(x, y)` when that point lies on the `w` by `h` canvas;
/// points off the canvas are dropped.
pub open spec fn put_pixel(canvas: Seq<u8>, w: int, h: int, x: int, y: int, v: u8) -> Seq<u8> {
    if 0 <= x < w && 0 <= y < h {
        canvas.update(y * w + x, v)
    } else {
        canvas
    }
}

/// Decodes `remaining` bytes of a run-length row starting at `pos`, drawing
/// from column `x` of row `y`. `None` when the data ends too early. A zero
/// byte that is the last byte of the row's budget makes the decoder read on
/// to the end of the data, so that too ends as `None`.
pub open spec fn rle_run(
    s: Seq<u8>,
    pos: int,
    remaining: int,
    x: int,
    y: int,
    w: int,
    h: int,
    canvas: Seq<u8>,
) -> Option<(int, Seq<u8>)>
    decreases remaining,
{
    if remaining <= 0 {
        Some((pos, canvas))
    } else if pos < 0 || pos >= s.len() {
        None
    } else if s[pos] != 0 {
        rle_run(s, pos + 1, remaining - 1, x + 1, y, w, h, put_pixel(canvas, w, h, x, y, s[pos]))
    } else if pos + 1 >= s.len() || remaining == 1 {
        None
    } else {
        rle_run(s, pos + 2, remaining - 2, x + s[pos + 1], y, w, h, canvas)
    }
}

/// Copies `remaining` bytes starting at `pos` to consecutive pixels from
/// column `x` of row `y`. `None` when the data ends too early.
pub open spec fn scan_run(
    s: Seq<u8>,
    pos: int,
    remaining: int,
    x: int,
    y: int,
    w: int,
    h: int,
    canvas: Seq<u8>,
) -> Option<(int, Seq<u8>)>
    decreases remaining,
{
    if remaining <= 0 {
        Some((pos, canvas))
    } else if pos < 0 || pos >= s.len() {
        None
    } else {
        scan_run(s, pos + 1, remaining - 1, x + 1, y, w, h, put_pixel(canvas, w, h, x, y, s[pos]))
    }
}

/// The row budget of a length-prefixed row: the stored length minus the two
/// bytes of the length itself, never below zero.
pub open spec fn row_budget(len: int) -> int {
    if len >= 2 {
        len - 2
    } else {
        0
    }
}

/// Decodes `n` rows starting at `pos`; the first row is row `y` of the
/// canvas, every row starts at column `fx`; `fw` is the frame width (used by
/// uncompressed rows). `None` when the data ends too early.
pub open spec fn decode_rows(
    s: Seq<u8>,
    pos: int,
    n: int,
    enc: RowEncoding,
    fx: int,
    y: int,
    fw: int,
    w: int,
    h: int,
    canvas: Seq<u8>,
) -> Option<Seq<u8>>
    decreases n,
{
    if n <= 0 {
        Some(canvas)
    } else {
        let row = match enc {
            RowEncoding::Raw => if pos + fw > s.len() {
                None
            } else {
                scan_run(s, pos, fw, fx, y, w, h, canvas)
            },
            RowEncoding::Rle => if pos + 2 > s.len() {
                None
            } else {
                rle_run(s, pos + 2, row_budget(le16(s, pos)), fx, y, w, h, canvas)
            },
            RowEncoding::Scanline => if pos + 2 > s.len() {
                None
            } else {
                scan_run(s, pos + 2, row_budget(le16(s, pos)), fx, y, w, h, canvas)
            },
        };
        match row {
            Some((p, c)) => decode_rows(s, p, n - 1, enc, fx, y + 1, fw, w, h, c),
            None => None,
        }
    }
}

/// Decodes one frame onto a blank `w * h` canvas.
pub open spec fn decode_frame(s: Seq<u8>, hd: FrameHeader, w: int, h: int) -> Result<
    Seq<u8>,
    ShpError,
> {
    if hd.data_off == 0 || hd.w == 0 || hd.h == 0 {
        Ok(blank_canvas(w, h))
    } else if hd.data_off >= s.len() {
        Err(ShpError::OffsetOutOfRange)
    } else {
        match decode_rows(
            s,
            hd.data_off as int,
            hd.h as int,
            row_encoding(hd.flags),
            hd.x as int,
            hd.y as int,
            hd.w as int,
            w,
            h,
            blank_canvas(w, h),
        ) {
            Some(c) => Ok(c),
            None => Err(ShpError::UnexpectedEof),
        }
    }
}

/// Decodes frames `0 .. n` in order; the first failing frame decides the error.
pub open spec fn decode_frames(s: Seq<u8>, w: int, h: int, n: nat) -> Result<
    Seq<Seq<u8>>,
    ShpError,
>
    decreases n,
{
    if n == 0 {
        Ok(Seq::empty())
    } else {
        match decode_frames(s, w, h, (n - 1) as nat) {
            Err(e) => Err(e),
            Ok(fs) => match decode_frame(s, frame_header_at(s, n - 1), w, h) {
                Err(e) => Err(e),
                Ok(f) => Ok(fs.push(f)),
            },
        }
    }
}

/// What a byte sequence decodes to.
pub open spec fn spec_load(s: Seq<u8>) -> Result<ShpModel, ShpError> {
    if s.len() < 8 {
        Err(ShpError::HeaderTooShort)
    } else if le16(s, 0) != 0 {
        Err(ShpError::NotShp)
    } else {
        let w = le16(s, 2);
        let h = le16(s, 4);
        let n = le16(s, 6);
        if w == 0 || h == 0 || n == 0 {
            Err(ShpError::InvalidSize)
        } else if s.len() < frame_header_pos(n) {
            Err(ShpError::UnexpectedEof)
        } else {
            match decode_frames(s, w, h, n as nat) {
                Ok(fs) => Ok(ShpModel { width: w as u32, height: h as u32, frames: fs }),
                Err(e) => Err(e),
            }
        }
    }
}

/// The first `w * h` pixels of frame `i`: what is written for it.
pub open spec fn frame_block(m: ShpModel, i: int) -> Seq<u8> {
    m.frames[i].take(m.width * m.height)
}

/// Every byte is zero (a fully transparent frame).
pub open spec fn all_zero(b: Seq<u8>) -> bool {
    forall|j: int| 0 <= j < b.len() ==> b[j] == 0
}

/// Size of the file header and the frame headers.
pub open spec fn headers_len(n: int) -> int {
    8 + 24 * n
}

/// Where the data of frame `k` would start: after the headers and the
/// data of every earlier non-transparent frame, held in a `u32` that stops
/// at its maximum.
pub open spec fn data_cursor(m: ShpModel, k: nat) -> int
    decreases k,
{
    if k == 0 {
        headers_len(m.frames.len() as int) as u32 as int
    } else {
        let c = data_cursor(m, (k - 1) as nat);
        if all_zero(frame_block(m, k - 1)) {
            c
        } else if c + m.width * m.height > u32::MAX {
            u32::MAX as int
        } else {
            c + m.width * m.height
        }
    }
}

/// The data offset written for frame `i`: zero for a transparent frame.
pub open spec fn data_offset(m: ShpModel, i: int) -> int {
    if all_zero(frame_block(m, i)) {
        0
    } else {
        data_cursor(m, i as nat)
    }
}

/// Byte `0` (least significant) of `v`.
pub open spec fn byte0(v: int) -> u8 {
    (v % 256) as u8
}

/// Byte `1` of `v`.
pub open spec fn byte1(v: int) -> u8 {
    ((v / 256) % 256) as u8
}

/// Byte `2` of `v`.
pub open spec fn byte2(v: int) -> u8 {
    ((v / 65536) % 256) as u8
}

/// Byte `3` of `v`.
pub open spec fn byte3(v: int) -> u8 {
    ((v / 16777216) % 256) as u8
}

/// The 24-byte header written for frame `i`: the whole canvas (x = y = 0,
/// w = width, h = height), stored uncompressed (flags 0), colour and
/// reserved fields zero, then the data offset.
pub open spec fn encode_frame_header(m: ShpModel, i: int) -> Seq<u8> {
    let w = m.width as u16 as int;
    let h = m.height as u16 as int;
    let off = data_offset(m, i);
    seq![
        0u8, 0u8, 0u8, 0u8,
        byte0(w), byte1(w), byte0(h), byte1(h),
        0u8, 0u8, 0u8, 0u8,
        0u8, 0u8, 0u8, 0u8,
        0u8, 0u8, 0u8, 0u8,
        byte0(off), byte1(off), byte2(off), byte3(off),
    ]
}

/// The headers of frames `0 .. k`.
pub open spec fn encode_headers(m: ShpModel, k: nat) -> Seq<u8>
    decreases k,
{
    if k == 0 {
        Seq::empty()
    } else {
        encode_headers(m, (k - 1) as nat) + encode_frame_header(m, k - 1)
    }
}

/// The data of frames `0 .. k`: each frame with a non-zero offset, in order.
pub open spec fn encode_data(m: ShpModel, k: nat) -> Seq<u8>
    decreases k,
{
    if k == 0 {
        Seq::empty()
    } else if data_offset(m, k - 1) == 0 {
        encode_data(m, (k - 1) as nat)
    } else {
        encode_data(m, (k - 1) as nat) + frame_block(m, k - 1)
    }
}

/// The file header written for `m`: zero, width, height, frame count.
pub open spec fn encode_file_header(m: ShpModel) -> Seq<u8> {
    let w = m.width as u16 as int;
    let h = m.height as u16 as int;
    let n = m.frames.len() as u16 as int;
    seq![0u8, 0u8, byte0(w), byte1(w), byte0(h), byte1(h), byte0(n), byte1(n)]
}

/// The bytes written for `m`.
#[verifier::opaque]
pub open spec fn spec_save(m: ShpModel) -> Seq<u8> {
    encode_file_header(m) + encode_headers(m, m.frames.len()) + encode_data(
        m,
        m.frames.len(),
    )
}

/// Once frames `0 .. k` fail, frames `0 .. n` fail the same way.
pub proof fn lemma_decode_frames_err(s: Seq<u8>, w: int, h: int, k: nat, n: nat)
    requires
        k <= n,
        decode_frames(s, w, h, k) is Err,
    ensures
        decode_frames(s, w, h, n) == decode_frames(s, w, h, k),
    decreases n,
{
    if n > k {
        lemma_decode_frames_err(s, w, h, k, (n - 1) as nat);
    }
}

/// A point of the canvas has an index inside it.
pub proof fn lemma_pixel_index(x: int, y: int, w: int, h: int)
    requires
        0 <= x < w,
        0 <= y < h,
    ensures
        0 <= y * w + x < w * h,
        y * w <= (h - 1) * w,
{
    assert(0 <= y * w) by (nonlinear_arith)
        requires
            0 <= y,
            0 <= w,
    ;
    assert(y * w <= (h - 1) * w) by (nonlinear_arith)
        requires
            y <= h - 1,
            0 <= w,
    ;
    assert((h - 1) * w + w == h * w) by (nonlinear_arith);
}

} // verus!
