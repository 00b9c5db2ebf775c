//! Where a frame's rows land: every row encoding draws from the column and
//! the row the frame header gives, so decoding a frame placed at column `fx`
//! (row `fy`) gives the frame placed at column 0 (row 0) moved right by
//! `fx` (down by `fy`), with what passes the edge of the canvas dropped.
use vstd::prelude::*;

use crate::shp_format::{
    blank_canvas, decode_frame, decode_rows, lemma_pixel_index, put_pixel, rle_run, row_budget,
    le16, scan_run, FrameHeader, RowEncoding,
};

verus! {

/// The pixel at column `col` of row `r` of a canvas `w` pixels wide.
pub open spec fn cell(c: Seq<u8>, w: int, r: int, col: int) -> u8 {
    c[r * w + col]
}

/// `c1` is `c0` moved right by `fx` columns on a `w` by `h` canvas: the
/// first `fx` columns transparent, the columns past the right edge gone.
pub open spec fn shifted(c1: Seq<u8>, c0: Seq<u8>, fx: int, w: int, h: int) -> bool {
    &&& c1.len() == w * h
    &&& c0.len() == w * h
    &&& forall|r: int, col: int|
        0 <= r < h && 0 <= col < w ==> #[trigger] cell(c1, w, r, col) == if col >= fx {
            cell(c0, w, r, col - fx)
        } else {
            0u8
        }
}

/// Two results of decoding a run of bytes, one drawn `fx` columns right of
/// the other: both fail, or both end at the same position with canvases
/// that are shifted copies.
pub open spec fn runs_shifted(
    a: Option<(int, Seq<u8>)>,
    b: Option<(int, Seq<u8>)>,
    fx: int,
    w: int,
    h: int,
) -> bool {
    match (a, b) {
        (Some((p1, c1)), Some((p0, c0))) => p1 == p0 && shifted(c1, c0, fx, w, h),
        (None, None) => true,
        _ => false,
    }
}

/// Canvas indices name one point each.
proof fn lemma_index_unique(r1: int, c1: int, r2: int, c2: int, w: int)
    requires
        0 <= c1 < w,
        0 <= c2 < w,
        r1 * w + c1 == r2 * w + c2,
    ensures
        r1 == r2,
        c1 == c2,
{
    assert((r1 - r2) * w == c2 - c1) by (nonlinear_arith)
        requires
            r1 * w + c1 == r2 * w + c2,
    ;
    if r1 > r2 {
        assert((r1 - r2) * w >= w) by (nonlinear_arith)
            requires
                r1 - r2 >= 1,
                w > 0,
        ;
    } else if r1 < r2 {
        assert((r2 - r1) * w >= w) by (nonlinear_arith)
            requires
                r2 - r1 >= 1,
                w > 0,
        ;
        assert((r1 - r2) * w == -((r2 - r1) * w)) by (nonlinear_arith);
    }
}

proof fn lemma_put_shifted(c1: Seq<u8>, c0: Seq<u8>, fx: int, w: int, h: int, x: int, y: int, v: u8)
    requires
        shifted(c1, c0, fx, w, h),
        0 <= fx,
        0 <= x,
        0 <= w,
        0 <= h,
    ensures
        shifted(put_pixel(c1, w, h, x + fx, y, v), put_pixel(c0, w, h, x, y, v), fx, w, h),
{
    let n1 = put_pixel(c1, w, h, x + fx, y, v);
    let n0 = put_pixel(c0, w, h, x, y, v);
    if 0 <= y < h && x < w {
        lemma_pixel_index(x, y, w, h);
    }
    if 0 <= y < h && x + fx < w {
        lemma_pixel_index(x + fx, y, w, h);
    }
    assert forall|r: int, col: int| 0 <= r < h && 0 <= col < w implies #[trigger] cell(
        n1,
        w,
        r,
        col,
    ) == if col >= fx {
        cell(n0, w, r, col - fx)
    } else {
        0u8
    } by {
        lemma_pixel_index(col, r, w, h);
        assert(cell(c1, w, r, col) == if col >= fx {
            cell(c0, w, r, col - fx)
        } else {
            0u8
        });
        if 0 <= y < h && x + fx < w && r * w + col == y * w + x + fx {
            lemma_index_unique(r, col, y, x + fx, w);
        }
        if col >= fx {
            lemma_pixel_index(col - fx, r, w, h);
            if 0 <= y < h && x < w && r * w + (col - fx) == y * w + x {
                lemma_index_unique(r, col - fx, y, x, w);
            }
        }
    }
}

proof fn lemma_scan_shifted(
    s: Seq<u8>,
    pos: int,
    rem: int,
    x: int,
    y: int,
    w: int,
    h: int,
    c1: Seq<u8>,
    c0: Seq<u8>,
    fx: int,
)
    requires
        shifted(c1, c0, fx, w, h),
        0 <= fx,
        0 <= x,
        0 <= w,
        0 <= h,
    ensures
        runs_shifted(
            scan_run(s, pos, rem, x + fx, y, w, h, c1),
            scan_run(s, pos, rem, x, y, w, h, c0),
            fx,
            w,
            h,
        ),
    decreases rem,
{
    if rem > 0 && 0 <= pos < s.len() {
        lemma_put_shifted(c1, c0, fx, w, h, x, y, s[pos]);
        lemma_scan_shifted(
            s,
            pos + 1,
            rem - 1,
            x + 1,
            y,
            w,
            h,
            put_pixel(c1, w, h, x + fx, y, s[pos]),
            put_pixel(c0, w, h, x, y, s[pos]),
            fx,
        );
        assert(x + 1 + fx == x + fx + 1);
    }
}

proof fn lemma_rle_shifted(
    s: Seq<u8>,
    pos: int,
    rem: int,
    x: int,
    y: int,
    w: int,
    h: int,
    c1: Seq<u8>,
    c0: Seq<u8>,
    fx: int,
)
    requires
        shifted(c1, c0, fx, w, h),
        0 <= fx,
        0 <= x,
        0 <= w,
        0 <= h,
    ensures
        runs_shifted(
            rle_run(s, pos, rem, x + fx, y, w, h, c1),
            rle_run(s, pos, rem, x, y, w, h, c0),
            fx,
            w,
            h,
        ),
    decreases rem,
{
    if rem > 0 && 0 <= pos < s.len() {
        if s[pos] != 0 {
            lemma_put_shifted(c1, c0, fx, w, h, x, y, s[pos]);
            lemma_rle_shifted(
                s,
                pos + 1,
                rem - 1,
                x + 1,
                y,
                w,
                h,
                put_pixel(c1, w, h, x + fx, y, s[pos]),
                put_pixel(c0, w, h, x, y, s[pos]),
                fx,
            );
            assert(x + 1 + fx == x + fx + 1);
        } else if !(pos + 1 >= s.len() || rem == 1) {
            lemma_rle_shifted(s, pos + 2, rem - 2, x + s[pos + 1], y, w, h, c1, c0, fx);
            assert(x + s[pos + 1] + fx == x + fx + s[pos + 1]);
        }
    }
}

proof fn lemma_rows_shifted(
    s: Seq<u8>,
    pos: int,
    n: int,
    enc: RowEncoding,
    fx: int,
    y: int,
    fw: int,
    w: int,
    h: int,
    c1: Seq<u8>,
    c0: Seq<u8>,
)
    requires
        shifted(c1, c0, fx, w, h),
        0 <= fx,
        0 <= w,
        0 <= h,
    ensures
        match (
            decode_rows(s, pos, n, enc, fx, y, fw, w, h, c1),
            decode_rows(s, pos, n, enc, 0, y, fw, w, h, c0),
        ) {
            (Some(a), Some(b)) => shifted(a, b, fx, w, h),
            (None, None) => true,
            _ => false,
        },
    decreases n,
{
    if n > 0 {
        let row1 = match enc {
            RowEncoding::Raw => if pos + fw > s.len() {
                None
            } else {
                scan_run(s, pos, fw, fx, y, w, h, c1)
            },
            RowEncoding::Rle => if pos + 2 > s.len() {
                None
            } else {
                rle_run(s, pos + 2, row_budget(le16(s, pos)), fx, y, w, h, c1)
            },
            RowEncoding::Scanline => if pos + 2 > s.len() {
                None
            } else {
                scan_run(s, pos + 2, row_budget(le16(s, pos)), fx, y, w, h, c1)
            },
        };
        let row0 = match enc {
            RowEncoding::Raw => if pos + fw > s.len() {
                None
            } else {
                scan_run(s, pos, fw, 0, y, w, h, c0)
            },
            RowEncoding::Rle => if pos + 2 > s.len() {
                None
            } else {
                rle_run(s, pos + 2, row_budget(le16(s, pos)), 0, y, w, h, c0)
            },
            RowEncoding::Scanline => if pos + 2 > s.len() {
                None
            } else {
                scan_run(s, pos + 2, row_budget(le16(s, pos)), 0, y, w, h, c0)
            },
        };
        match enc {
            RowEncoding::Raw => {
                lemma_scan_shifted(s, pos, fw, 0, y, w, h, c1, c0, fx);
            },
            RowEncoding::Rle => {
                lemma_rle_shifted(s, pos + 2, row_budget(le16(s, pos)), 0, y, w, h, c1, c0, fx);
            },
            RowEncoding::Scanline => {
                lemma_scan_shifted(s, pos + 2, row_budget(le16(s, pos)), 0, y, w, h, c1, c0, fx);
            },
        }
        assert(runs_shifted(row1, row0, fx, w, h));
        match (row1, row0) {
            (Some((p1, a)), Some((p0, b))) => {
                lemma_rows_shifted(s, p1, n - 1, enc, fx, y + 1, fw, w, h, a, b);
            },
            _ => {},
        }
    }
}

/// Decoding a frame placed at column `hd.x` gives the same frame placed at
/// column 0 moved right by `hd.x` columns: the same error or success, and
/// on success the first `hd.x` columns transparent, every other pixel the
/// one `hd.x` columns to its left in the frame at column 0, and what passes
/// the right edge dropped. This holds for every row encoding.
pub proof fn lemma_frame_drawn_at_its_column(s: Seq<u8>, hd: FrameHeader, w: int, h: int)
    requires
        0 <= w,
        0 <= h,
    ensures
        ({
            let at0 = FrameHeader { x: 0, ..hd };
            match (decode_frame(s, hd, w, h), decode_frame(s, at0, w, h)) {
                (Ok(c1), Ok(c0)) => shifted(c1, c0, hd.x as int, w, h),
                (Err(e1), Err(e0)) => e1 == e0,
                _ => false,
            }
        }),
{
    let blank = blank_canvas(w, h);
    assert(shifted(blank, blank, hd.x as int, w, h)) by {
        assert forall|r: int, col: int| 0 <= r < h && 0 <= col < w implies #[trigger] cell(
            blank,
            w,
            r,
            col,
        ) == if col >= hd.x {
            cell(blank, w, r, col - hd.x)
        } else {
            0u8
        } by {
            lemma_pixel_index(col, r, w, h);
            if col >= hd.x {
                lemma_pixel_index(col - hd.x, r, w, h);
            }
        }
    }
    lemma_rows_shifted(
        s,
        hd.data_off as int,
        hd.h as int,
        crate::shp_format::row_encoding(hd.flags),
        hd.x as int,
        hd.y as int,
        hd.w as int,
        w,
        h,
        blank,
        blank,
    );
}

/// `c1` is `c0` moved down by `fy` rows on a `w` by `h` canvas: the first
/// `fy` rows transparent, the rows past the bottom edge gone.
pub open spec fn shifted_down(c1: Seq<u8>, c0: Seq<u8>, fy: int, w: int, h: int) -> bool {
    &&& c1.len() == w * h
    &&& c0.len() == w * h
    &&& forall|r: int, col: int|
        0 <= r < h && 0 <= col < w ==> #[trigger] cell(c1, w, r, col) == if r >= fy {
            cell(c0, w, r - fy, col)
        } else {
            0u8
        }
}

/// Two results of decoding a run of bytes, one drawn `fy` rows below the
/// other.
pub open spec fn runs_shifted_down(
    a: Option<(int, Seq<u8>)>,
    b: Option<(int, Seq<u8>)>,
    fy: int,
    w: int,
    h: int,
) -> bool {
    match (a, b) {
        (Some((p1, c1)), Some((p0, c0))) => p1 == p0 && shifted_down(c1, c0, fy, w, h),
        (None, None) => true,
        _ => false,
    }
}

proof fn lemma_put_down(c1: Seq<u8>, c0: Seq<u8>, fy: int, w: int, h: int, x: int, y: int, v: u8)
    requires
        shifted_down(c1, c0, fy, w, h),
        0 <= fy,
        0 <= y,
        0 <= w,
        0 <= h,
    ensures
        shifted_down(put_pixel(c1, w, h, x, y + fy, v), put_pixel(c0, w, h, x, y, v), fy, w, h),
{
    let n1 = put_pixel(c1, w, h, x, y + fy, v);
    let n0 = put_pixel(c0, w, h, x, y, v);
    if 0 <= x < w && y < h {
        lemma_pixel_index(x, y, w, h);
    }
    if 0 <= x < w && y + fy < h {
        lemma_pixel_index(x, y + fy, w, h);
    }
    assert forall|r: int, col: int| 0 <= r < h && 0 <= col < w implies #[trigger] cell(
        n1,
        w,
        r,
        col,
    ) == if r >= fy {
        cell(n0, w, r - fy, col)
    } else {
        0u8
    } by {
        lemma_pixel_index(col, r, w, h);
        assert(cell(c1, w, r, col) == if r >= fy {
            cell(c0, w, r - fy, col)
        } else {
            0u8
        });
        if 0 <= x < w && y + fy < h && r * w + col == (y + fy) * w + x {
            lemma_index_unique(r, col, y + fy, x, w);
        }
        if r >= fy {
            lemma_pixel_index(col, r - fy, w, h);
            if 0 <= x < w && y < h && (r - fy) * w + col == y * w + x {
                lemma_index_unique(r - fy, col, y, x, w);
            }
        }
    }
}

proof fn lemma_scan_down(
    s: Seq<u8>,
    pos: int,
    rem: int,
    x: int,
    y: int,
    w: int,
    h: int,
    c1: Seq<u8>,
    c0: Seq<u8>,
    fy: int,
)
    requires
        shifted_down(c1, c0, fy, w, h),
        0 <= fy,
        0 <= y,
        0 <= w,
        0 <= h,
    ensures
        runs_shifted_down(
            scan_run(s, pos, rem, x, y + fy, w, h, c1),
            scan_run(s, pos, rem, x, y, w, h, c0),
            fy,
            w,
            h,
        ),
    decreases rem,
{
    if rem > 0 && 0 <= pos < s.len() {
        lemma_put_down(c1, c0, fy, w, h, x, y, s[pos]);
        lemma_scan_down(
            s,
            pos + 1,
            rem - 1,
            x + 1,
            y,
            w,
            h,
            put_pixel(c1, w, h, x, y + fy, s[pos]),
            put_pixel(c0, w, h, x, y, s[pos]),
            fy,
        );
    }
}

proof fn lemma_rle_down(
    s: Seq<u8>,
    pos: int,
    rem: int,
    x: int,
    y: int,
    w: int,
    h: int,
    c1: Seq<u8>,
    c0: Seq<u8>,
    fy: int,
)
    requires
        shifted_down(c1, c0, fy, w, h),
        0 <= fy,
        0 <= y,
        0 <= w,
        0 <= h,
    ensures
        runs_shifted_down(
            rle_run(s, pos, rem, x, y + fy, w, h, c1),
            rle_run(s, pos, rem, x, y, w, h, c0),
            fy,
            w,
            h,
        ),
    decreases rem,
{
    if rem > 0 && 0 <= pos < s.len() {
        if s[pos] != 0 {
            lemma_put_down(c1, c0, fy, w, h, x, y, s[pos]);
            lemma_rle_down(
                s,
                pos + 1,
                rem - 1,
                x + 1,
                y,
                w,
                h,
                put_pixel(c1, w, h, x, y + fy, s[pos]),
                put_pixel(c0, w, h, x, y, s[pos]),
                fy,
            );
        } else if !(pos + 1 >= s.len() || rem == 1) {
            lemma_rle_down(s, pos + 2, rem - 2, x + s[pos + 1], y, w, h, c1, c0, fy);
        }
    }
}

proof fn lemma_rows_down(
    s: Seq<u8>,
    pos: int,
    n: int,
    enc: RowEncoding,
    fx: int,
    y: int,
    fy: int,
    fw: int,
    w: int,
    h: int,
    c1: Seq<u8>,
    c0: Seq<u8>,
)
    requires
        shifted_down(c1, c0, fy, w, h),
        0 <= fy,
        0 <= y,
        0 <= w,
        0 <= h,
    ensures
        match (
            decode_rows(s, pos, n, enc, fx, y + fy, fw, w, h, c1),
            decode_rows(s, pos, n, enc, fx, y, fw, w, h, c0),
        ) {
            (Some(a), Some(b)) => shifted_down(a, b, fy, w, h),
            (None, None) => true,
            _ => false,
        },
    decreases n,
{
    if n > 0 {
        let row1 = match enc {
            RowEncoding::Raw => if pos + fw > s.len() {
                None
            } else {
                scan_run(s, pos, fw, fx, y + fy, w, h, c1)
            },
            RowEncoding::Rle => if pos + 2 > s.len() {
                None
            } else {
                rle_run(s, pos + 2, row_budget(le16(s, pos)), fx, y + fy, w, h, c1)
            },
            RowEncoding::Scanline => if pos + 2 > s.len() {
                None
            } else {
                scan_run(s, pos + 2, row_budget(le16(s, pos)), fx, y + fy, w, h, c1)
            },
        };
        let row0 = match enc {
            RowEncoding::Raw => if pos + fw > s.len() {
                None
            } else {
                scan_run(s, pos, fw, fx, y, w, h, c0)
            },
            RowEncoding::Rle => if pos + 2 > s.len() {
                None
            } else {
                rle_run(s, pos + 2, row_budget(le16(s, pos)), fx, y, w, h, c0)
            },
            RowEncoding::Scanline => if pos + 2 > s.len() {
                None
            } else {
                scan_run(s, pos + 2, row_budget(le16(s, pos)), fx, y, w, h, c0)
            },
        };
        match enc {
            RowEncoding::Raw => {
                lemma_scan_down(s, pos, fw, fx, y, w, h, c1, c0, fy);
            },
            RowEncoding::Rle => {
                lemma_rle_down(s, pos + 2, row_budget(le16(s, pos)), fx, y, w, h, c1, c0, fy);
            },
            RowEncoding::Scanline => {
                lemma_scan_down(s, pos + 2, row_budget(le16(s, pos)), fx, y, w, h, c1, c0, fy);
            },
        }
        assert(runs_shifted_down(row1, row0, fy, w, h));
        match (row1, row0) {
            (Some((p1, a)), Some((p0, b))) => {
                lemma_rows_down(s, p1, n - 1, enc, fx, y + 1, fy, fw, w, h, a, b);
                assert(y + 1 + fy == y + fy + 1);
            },
            _ => {},
        }
    }
}

/// Decoding a frame placed at row `hd.y` gives the same frame placed at
/// row 0 moved down by `hd.y` rows: the same error or success, and on
/// success the first `hd.y` rows transparent, every other pixel the one
/// `hd.y` rows above it in the frame at row 0, and what passes the bottom
/// edge dropped. This holds for every row encoding.
pub proof fn lemma_frame_drawn_at_its_row(s: Seq<u8>, hd: FrameHeader, w: int, h: int)
    requires
        0 <= w,
        0 <= h,
    ensures
        ({
            let at0 = FrameHeader { y: 0, ..hd };
            match (decode_frame(s, hd, w, h), decode_frame(s, at0, w, h)) {
                (Ok(c1), Ok(c0)) => shifted_down(c1, c0, hd.y as int, w, h),
                (Err(e1), Err(e0)) => e1 == e0,
                _ => false,
            }
        }),
{
    let blank = blank_canvas(w, h);
    assert(shifted_down(blank, blank, hd.y as int, w, h)) by {
        assert forall|r: int, col: int| 0 <= r < h && 0 <= col < w implies #[trigger] cell(
            blank,
            w,
            r,
            col,
        ) == if r >= hd.y {
            cell(blank, w, r - hd.y, col)
        } else {
            0u8
        } by {
            lemma_pixel_index(col, r, w, h);
            if r >= hd.y {
                lemma_pixel_index(col, r - hd.y, w, h);
            }
        }
    }
    lemma_rows_down(
        s,
        hd.data_off as int,
        hd.h as int,
        crate::shp_format::row_encoding(hd.flags),
        hd.x as int,
        0,
        hd.y as int,
        hd.w as int,
        w,
        h,
        blank,
        blank,
    );
}

/// A run-length row without zero bytes is drawn like a plain scanline row:
/// one pixel per byte, from the row's first column on.
pub proof fn lemma_rle_without_zeros_is_scanline(
    s: Seq<u8>,
    pos: int,
    rem: int,
    x: int,
    y: int,
    w: int,
    h: int,
    c: Seq<u8>,
)
    requires
        forall|i: int| pos <= i < pos + rem && 0 <= i < s.len() ==> #[trigger] s[i] != 0,
    ensures
        rle_run(s, pos, rem, x, y, w, h, c) == scan_run(s, pos, rem, x, y, w, h, c),
    decreases rem,
{
    if rem > 0 && 0 <= pos < s.len() {
        lemma_rle_without_zeros_is_scanline(
            s,
            pos + 1,
            rem - 1,
            x + 1,
            y,
            w,
            h,
            put_pixel(c, w, h, x, y, s[pos]),
        );
    }
}

/// In a run-length row, a zero byte and a count `k` leave the next `k`
/// pixels as they are: what follows is drawn `k` columns further right, with
/// the two bytes taken from the row's budget.
pub proof fn lemma_rle_zero_run_skips(
    s: Seq<u8>,
    pos: int,
    rem: int,
    x: int,
    y: int,
    w: int,
    h: int,
    c: Seq<u8>,
)
    requires
        0 <= pos,
        pos + 1 < s.len(),
        rem >= 2,
        s[pos] == 0,
    ensures
        rle_run(s, pos, rem, x, y, w, h, c) == rle_run(s, pos + 2, rem - 2, x + s[pos + 1], y, w, h, c),
{
}

} // verus!
