//! Executable decoding of frame rows, each step proved equal to the layout in
//! `shp_format`.
use vstd::prelude::*;

use crate::shp_format::{
    blank_canvas, decode_frame, decode_rows, frame_header_at, frame_header_pos, le16, le32,
    lemma_pixel_index, put_pixel, rle_run, row_encoding, scan_run, FrameHeader, RowEncoding,
    ShpError,
};

verus! {

/// Little-endian `u16` at `i`.
pub fn read_le16(bytes: &[u8], i: usize) -> (v: u16)
    requires
        i + 2 <= bytes@.len(),
    ensures
        v as int == le16(bytes@, i as int),
{
    bytes[i] as u16 + (bytes[i + 1] as u16) * 256
}

/// Little-endian `u32` at `i`.
pub fn read_le32(bytes: &[u8], i: usize) -> (v: u32)
    requires
        i + 4 <= bytes@.len(),
    ensures
        v as int == le32(bytes@, i as int),
{
    bytes[i] as u32 + (bytes[i + 1] as u32) * 256 + (bytes[i + 2] as u32) * 65536 + (bytes[i
        + 3] as u32) * 16777216
}

/// The header of frame `i`.
pub fn read_frame_header(bytes: &[u8], i: usize) -> (hd: FrameHeader)
    requires
        frame_header_pos(i as int) + 24 <= bytes@.len(),
    ensures
        hd == frame_header_at(bytes@, i as int),
{
    let len = bytes.len();
    let b = 8 + 24 * i;
    FrameHeader {
        x: read_le16(bytes, b),
        y: read_le16(bytes, b + 2),
        w: read_le16(bytes, b + 4),
        h: read_le16(bytes, b + 6),
        flags: read_le32(bytes, b + 8),
        data_off: read_le32(bytes, b + 20),
    }
}

/// The row storage selected by `flags`.
pub fn row_encoding_of(flags: u32) -> (enc: RowEncoding)
    ensures
        enc == row_encoding(flags),
{
    if flags & 3 == 3 {
        RowEncoding::Rle
    } else if flags & 2 == 2 && flags & 1 == 0 {
        RowEncoding::Scanline
    } else {
        RowEncoding::Raw
    }
}

/// Writes `v` at `(x, y)` when that point is on the canvas.
pub fn put_pixel_exec(canvas: &mut Vec<u8>, w: usize, h: usize, x: usize, y: usize, v: u8)
    requires
        old(canvas)@.len() == w * h,
        w <= 65535,
        h <= 65535,
    ensures
        final(canvas)@ == put_pixel(old(canvas)@, w as int, h as int, x as int, y as int, v),
        final(canvas)@.len() == old(canvas)@.len(),
{
    if x < w && y < h {
        proof {
            lemma_pixel_index(x as int, y as int, w as int, h as int);
            assert(w * h <= 65535 * 65535) by (nonlinear_arith)
                requires
                    w <= 65535,
                    h <= 65535,
            ;
        }
        let i = y * w + x;
        canvas.set(i, v);
    }
}

/// One run-length row: `remaining` bytes from `pos`, starting at column `x0`
/// of row `y`. Returns the position after the row.
pub fn decode_rle_row(
    bytes: &[u8],
    pos: usize,
    remaining: usize,
    x0: usize,
    y: usize,
    w: usize,
    h: usize,
    canvas: &mut Vec<u8>,
) -> (res: Option<usize>)
    requires
        old(canvas)@.len() == w * h,
        w <= 65535,
        h <= 65535,
        x0 <= 65535,
        remaining <= 65535,
        pos <= bytes@.len(),
    ensures
        final(canvas)@.len() == old(canvas)@.len(),
        res matches Some(q) ==> q <= bytes@.len(),
        match rle_run(
            bytes@,
            pos as int,
            remaining as int,
            x0 as int,
            y as int,
            w as int,
            h as int,
            old(canvas)@,
        ) {
            Some((p, c)) => res matches Some(q) && q as int == p && final(canvas)@ == c,
            None => res is None,
        },
{
    let ghost s = bytes@;
    let ghost goal = rle_run(
        s,
        pos as int,
        remaining as int,
        x0 as int,
        y as int,
        w as int,
        h as int,
        old(canvas)@,
    );
    let mut p = pos;
    let mut rem = remaining;
    let mut x = x0;
    while rem > 0
        invariant
            canvas@.len() == w * h,
            w <= 65535,
            h <= 65535,
            x0 <= 65535,
            remaining <= 65535,
            rem <= remaining,
            p <= bytes@.len(),
            old(canvas)@.len() == w * h,
            x <= x0 + 255 * (remaining - rem),
            s == bytes@,
            goal == rle_run(
                bytes@,
                pos as int,
                remaining as int,
                x0 as int,
                y as int,
                w as int,
                h as int,
                old(canvas)@,
            ),
            rle_run(s, p as int, rem as int, x as int, y as int, w as int, h as int, canvas@)
                == goal,
        decreases rem,
    {
        if p >= bytes.len() {
            return None;
        }
        let v = bytes[p];
        if v != 0 {
            put_pixel_exec(canvas, w, h, x, y, v);
            x = x + 1;
            p = p + 1;
            rem = rem - 1;
        } else {
            if p + 1 >= bytes.len() || rem == 1 {
                return None;
            }
            let zeros = bytes[p + 1] as usize;
            x = x + zeros;
            p = p + 2;
            rem = rem - 2;
        }
    }
    Some(p)
}

/// `remaining` bytes from `pos` copied to consecutive pixels from column `x0`
/// of row `y`. Returns the position after them.
pub fn decode_scan_row(
    bytes: &[u8],
    pos: usize,
    remaining: usize,
    x0: usize,
    y: usize,
    w: usize,
    h: usize,
    canvas: &mut Vec<u8>,
) -> (res: Option<usize>)
    requires
        old(canvas)@.len() == w * h,
        w <= 65535,
        h <= 65535,
        x0 <= 65535,
        remaining <= 65535,
        pos <= bytes@.len(),
    ensures
        final(canvas)@.len() == old(canvas)@.len(),
        res matches Some(q) ==> q <= bytes@.len(),
        match scan_run(
            bytes@,
            pos as int,
            remaining as int,
            x0 as int,
            y as int,
            w as int,
            h as int,
            old(canvas)@,
        ) {
            Some((p, c)) => res matches Some(q) && q as int == p && final(canvas)@ == c,
            None => res is None,
        },
{
    let ghost s = bytes@;
    let ghost goal = scan_run(
        s,
        pos as int,
        remaining as int,
        x0 as int,
        y as int,
        w as int,
        h as int,
        old(canvas)@,
    );
    let mut p = pos;
    let mut rem = remaining;
    let mut x = x0;
    while rem > 0
        invariant
            canvas@.len() == w * h,
            w <= 65535,
            h <= 65535,
            x0 <= 65535,
            remaining <= 65535,
            rem <= remaining,
            p <= bytes@.len(),
            old(canvas)@.len() == w * h,
            x == x0 + (remaining - rem),
            goal == scan_run(
                bytes@,
                pos as int,
                remaining as int,
                x0 as int,
                y as int,
                w as int,
                h as int,
                old(canvas)@,
            ),
            s == bytes@,
            scan_run(s, p as int, rem as int, x as int, y as int, w as int, h as int, canvas@)
                == goal,
        decreases rem,
    {
        if p >= bytes.len() {
            return None;
        }
        let v = bytes[p];
        put_pixel_exec(canvas, w, h, x, y, v);
        x = x + 1;
        p = p + 1;
        rem = rem - 1;
    }
    Some(p)
}

/// `n` rows from `pos`, the first on canvas row `fy`, each from column `fx`.
pub fn decode_rows_exec(
    bytes: &[u8],
    pos: usize,
    n: usize,
    enc: RowEncoding,
    fx: usize,
    fy: usize,
    fw: usize,
    w: usize,
    h: usize,
    canvas: &mut Vec<u8>,
) -> (ok: bool)
    requires
        old(canvas)@.len() == w * h,
        w <= 65535,
        h <= 65535,
        fx <= 65535,
        fy <= 65535,
        fw <= 65535,
        n <= 65535,
        pos <= bytes@.len(),
    ensures
        final(canvas)@.len() == old(canvas)@.len(),
        match decode_rows(
            bytes@,
            pos as int,
            n as int,
            enc,
            fx as int,
            fy as int,
            fw as int,
            w as int,
            h as int,
            old(canvas)@,
        ) {
            Some(c) => ok && final(canvas)@ == c,
            None => !ok,
        },
{
    let ghost s = bytes@;
    let ghost goal = decode_rows(
        s,
        pos as int,
        n as int,
        enc,
        fx as int,
        fy as int,
        fw as int,
        w as int,
        h as int,
        old(canvas)@,
    );
    let mut p = pos;
    let mut r: usize = 0;
    let mut y = fy;
    while r < n
        invariant
            canvas@.len() == w * h,
            w <= 65535,
            h <= 65535,
            fx <= 65535,
            fy <= 65535,
            fw <= 65535,
            n <= 65535,
            r <= n,
            old(canvas)@.len() == w * h,
            y == fy + r,
            p <= bytes@.len(),
            s == bytes@,
            goal == decode_rows(
                bytes@,
                pos as int,
                n as int,
                enc,
                fx as int,
                fy as int,
                fw as int,
                w as int,
                h as int,
                old(canvas)@,
            ),
            decode_rows(
                s,
                p as int,
                (n - r) as int,
                enc,
                fx as int,
                y as int,
                fw as int,
                w as int,
                h as int,
                canvas@,
            ) == goal,
        decreases n - r,
    {
        let row = match enc {
            RowEncoding::Raw => {
                if fw > bytes.len() - p {
                    return false;
                }
                decode_scan_row(bytes, p, fw, fx, y, w, h, canvas)
            },
            RowEncoding::Rle => {
                if 2 > bytes.len() - p {
                    return false;
                }
                let len = read_le16(bytes, p);
                let budget = (len as usize).saturating_sub(2);
                decode_rle_row(bytes, p + 2, budget, fx, y, w, h, canvas)
            },
            RowEncoding::Scanline => {
                if 2 > bytes.len() - p {
                    return false;
                }
                let len = read_le16(bytes, p);
                let budget = (len as usize).saturating_sub(2);
                decode_scan_row(bytes, p + 2, budget, fx, y, w, h, canvas)
            },
        };
        match row {
            Some(q) => {
                p = q;
            },
            None => {
                return false;
            },
        }
        r = r + 1;
        y = y + 1;
    }
    true
}

/// Decodes one frame onto a blank `w * h` canvas.
pub fn decode_frame_exec(bytes: &[u8], hd: FrameHeader, w: usize, h: usize) -> (res: Result<
    Vec<u8>,
    ShpError,
>)
    requires
        w <= 65535,
        h <= 65535,
    ensures
        res matches Ok(px) ==> px@.len() == w * h,
        match res {
            Ok(px) => decode_frame(bytes@, hd, w as int, h as int) == Ok::<Seq<u8>, ShpError>(
                px@,
            ),
            Err(e) => decode_frame(bytes@, hd, w as int, h as int) == Err::<Seq<u8>, ShpError>(
                e,
            ),
        },
{
    proof {
        assert(w * h <= 65535 * 65535) by (nonlinear_arith)
            requires
                w <= 65535,
                h <= 65535,
        ;
    }
    let mut pixels: Vec<u8> = vec![0u8; w * h];
    assert(pixels@ =~= blank_canvas(w as int, h as int));
    if hd.data_off == 0 || hd.w == 0 || hd.h == 0 {
        return Ok(pixels);
    }
    if hd.data_off as usize >= bytes.len() {
        return Err(ShpError::OffsetOutOfRange);
    }
    let enc = row_encoding_of(hd.flags);
    let ok = decode_rows_exec(
        bytes,
        hd.data_off as usize,
        hd.h as usize,
        enc,
        hd.x as usize,
        hd.y as usize,
        hd.w as usize,
        w,
        h,
        &mut pixels,
    );
    if ok {
        Ok(pixels)
    } else {
        Err(ShpError::UnexpectedEof)
    }
}

} // verus!
