//! What is written can be read back: decoding the bytes that `SHP::save`
//! produces gives the same canvas size and frames.
use vstd::prelude::*;

use crate::shp_format::{
    all_zero, blank_canvas, byte0, byte1, byte2, byte3, data_cursor, data_offset, decode_frame, decode_frames, decode_rows,
    encode_data, encode_file_header, encode_frame_header, encode_headers, frame_block,
    frame_header_at, frame_header_pos, headers_len, le16, le32,
    put_pixel, row_encoding, scan_run, spec_load, spec_save, FrameHeader, RowEncoding, ShpError,
    ShpModel,
};

verus! {

/// How many of frames `0 .. k` are not fully transparent.
pub open spec fn nonblank_count(m: ShpModel, k: nat) -> nat
    decreases k,
{
    if k == 0 {
        0
    } else if all_zero(frame_block(m, k - 1)) {
        nonblank_count(m, (k - 1) as nat)
    } else {
        nonblank_count(m, (k - 1) as nat) + 1
    }
}

/// The models whose encoding decodes back to them: a non-empty canvas and
/// frame count that fit the format's `u16` fields, every frame exactly
/// `width * height` pixels, and every written frame starting at an offset
/// that fits the format's `u32` field.
pub open spec fn saves_faithfully(m: ShpModel) -> bool {
    &&& 1 <= m.width <= 65535
    &&& 1 <= m.height <= 65535
    &&& 1 <= m.frames.len() <= 65535
    &&& forall|i: int| 0 <= i < m.frames.len() ==> #[trigger] m.frames[i].len() == m.width * m.height
    &&& forall|i: int|
        0 <= i < m.frames.len() && !all_zero(#[trigger] frame_block(m, i)) ==> headers_len(
            m.frames.len() as int,
        ) + nonblank_count(m, i as nat) * (m.width * m.height) <= u32::MAX
}

proof fn lemma_bytes16(v: int)
    requires
        0 <= v < 65536,
    ensures
        byte0(v) + 256 * byte1(v) == v,
{
}

proof fn lemma_bytes32(v: int)
    requires
        0 <= v <= u32::MAX,
    ensures
        byte0(v) + 256 * byte1(v) + 65536 * byte2(v) + 16777216 * byte3(v) == v,
{
}

/// Where the parts of the encoding stand in it.
proof fn lemma_save_layout(m: ShpModel)
    ensures
        spec_save(m).len() == 8 + encode_headers(m, m.frames.len()).len() + encode_data(
            m,
            m.frames.len(),
        ).len(),
        forall|j: int| 0 <= j < 8 ==> spec_save(m)[j] == #[trigger] encode_file_header(m)[j],
        forall|k: int|
            0 <= k < encode_headers(m, m.frames.len()).len() ==> spec_save(m)[8 + k]
                == #[trigger] encode_headers(m, m.frames.len())[k],
        forall|k: int|
            0 <= k < encode_data(m, m.frames.len()).len() ==> spec_save(m)[8 + encode_headers(
                m,
                m.frames.len(),
            ).len() + k] == #[trigger] encode_data(m, m.frames.len())[k],
{
    reveal(spec_save);
}

proof fn lemma_nonblank_count_bound(m: ShpModel, k: nat)
    ensures
        nonblank_count(m, k) <= k,
    decreases k,
{
    if k > 0 {
        lemma_nonblank_count_bound(m, (k - 1) as nat);
    }
}

proof fn lemma_nonblank_count_mono(m: ShpModel, i: nat, k: nat)
    requires
        i < k,
        !all_zero(frame_block(m, i as int)),
    ensures
        nonblank_count(m, i) + 1 <= nonblank_count(m, k),
    decreases k,
{
    if k > i + 1 {
        lemma_nonblank_count_mono(m, i, (k - 1) as nat);
    }
}

/// The cursor is the unsaturated sum, capped at `u32::MAX`.
proof fn lemma_data_cursor(m: ShpModel, k: nat)
    requires
        1 <= m.width * m.height,
        m.frames.len() <= 65535,
    ensures
        data_cursor(m, k) == if headers_len(m.frames.len() as int) + nonblank_count(m, k) * (
        m.width * m.height) <= u32::MAX {
            headers_len(m.frames.len() as int) + nonblank_count(m, k) * (m.width * m.height)
        } else {
            u32::MAX as int
        },
        0 <= data_cursor(m, k) <= u32::MAX,
    decreases k,
{
    let wh = m.width * m.height;
    let hl = headers_len(m.frames.len() as int);
    assert(0 <= hl <= u32::MAX);
    if k == 0 {
        assert(hl as u32 as int == hl);
        assert(data_cursor(m, 0) == hl);
        assert(nonblank_count(m, 0) == 0);
        assert(nonblank_count(m, k) * wh == 0) by (nonlinear_arith)
            requires
                nonblank_count(m, k) == 0,
        ;
    } else {
        lemma_data_cursor(m, (k - 1) as nat);
        let c = nonblank_count(m, (k - 1) as nat);
        assert((c + 1) * wh == c * wh + wh) by (nonlinear_arith);
        assert(0 <= c * wh) by (nonlinear_arith)
            requires
                0 <= c,
                0 <= wh,
        ;
        let prev = data_cursor(m, (k - 1) as nat);
        if !all_zero(frame_block(m, k - 1)) {
            assert(nonblank_count(m, k) == c + 1);
            if hl + c * wh <= u32::MAX {
                assert(prev == hl + c * wh);
            } else {
                assert(prev == u32::MAX);
            }
        } else {
            assert(nonblank_count(m, k) == c);
        }
    }
}

/// The offset written for a frame: zero for a transparent one, else just
/// after the headers and the earlier written frames.
proof fn lemma_data_offset(m: ShpModel, i: int)
    requires
        saves_faithfully(m),
        0 <= i < m.frames.len(),
    ensures
        all_zero(frame_block(m, i)) ==> data_offset(m, i) == 0,
        !all_zero(frame_block(m, i)) ==> data_offset(m, i) == headers_len(m.frames.len() as int)
            + nonblank_count(m, i as nat) * (m.width * m.height),
        !all_zero(frame_block(m, i)) ==> data_offset(m, i) >= 8,
        0 <= data_offset(m, i) <= u32::MAX,
{
    let wh = m.width * m.height;
    assert(1 <= m.width * m.height) by (nonlinear_arith)
        requires
            1 <= m.width,
            1 <= m.height,
    ;
    lemma_data_cursor(m, i as nat);
    assert(0 <= nonblank_count(m, i as nat) * wh) by (nonlinear_arith)
        requires
            0 <= wh,
    ;
    if !all_zero(frame_block(m, i)) {
        assert(headers_len(m.frames.len() as int) + nonblank_count(m, i as nat) * wh <= u32::MAX);
    }
}

proof fn lemma_encode_headers(m: ShpModel, k: nat)
    ensures
        encode_headers(m, k).len() == 24 * k,
        forall|i: int, j: int|
            0 <= i < k && 0 <= j < 24 ==> encode_headers(m, k)[24 * i + j]
                == #[trigger] encode_frame_header(m, i)[j],
    decreases k,
{
    if k > 0 {
        lemma_encode_headers(m, (k - 1) as nat);
        let prev = encode_headers(m, (k - 1) as nat);
        let last = encode_frame_header(m, k - 1);
        assert(last.len() == 24);
        assert forall|i: int, j: int|
            0 <= i < k && 0 <= j < 24 implies encode_headers(m, k)[24 * i + j]
            == #[trigger] encode_frame_header(m, i)[j] by {
            if i < k - 1 {
                assert(24 * i + j < 24 * (k - 1));
            }
        }
    }
}

proof fn lemma_encode_data(m: ShpModel, k: nat)
    requires
        saves_faithfully(m),
        k <= m.frames.len(),
    ensures
        encode_data(m, k).len() == nonblank_count(m, k) * (m.width * m.height),
        forall|i: int|
            0 <= i < k && !all_zero(#[trigger] frame_block(m, i)) ==> encode_data(m, k).subrange(
                nonblank_count(m, i as nat) * (m.width * m.height),
                nonblank_count(m, i as nat) * (m.width * m.height) + m.width * m.height,
            ) == frame_block(m, i),
    decreases k,
{
    let wh = m.width * m.height;
    if k > 0 {
        lemma_encode_data(m, (k - 1) as nat);
        lemma_data_offset(m, k - 1);
        let c = nonblank_count(m, (k - 1) as nat);
        let prev = encode_data(m, (k - 1) as nat);
        assert((c + 1) * wh == c * wh + wh) by (nonlinear_arith);
        assert(frame_block(m, k - 1).len() == wh);
        assert forall|i: int|
            0 <= i < k && !all_zero(#[trigger] frame_block(m, i)) implies encode_data(
                m,
                k,
            ).subrange(
                nonblank_count(m, i as nat) * wh,
                nonblank_count(m, i as nat) * wh + wh,
            ) == frame_block(m, i) by {
            if i < k - 1 {
                lemma_nonblank_count_mono(m, i as nat, (k - 1) as nat);
                let ci = nonblank_count(m, i as nat);
                assert(ci * wh + wh <= c * wh) by (nonlinear_arith)
                    requires
                        ci + 1 <= c,
                        0 <= wh,
                ;
                assert(0 <= ci * wh) by (nonlinear_arith)
                    requires
                        0 <= ci,
                        0 <= wh,
                ;
                assert(encode_data(m, k).subrange(ci * wh, ci * wh + wh) =~= prev.subrange(
                    ci * wh,
                    ci * wh + wh,
                ));
            } else {
                assert(encode_data(m, k).subrange(c * wh, c * wh + wh) =~= frame_block(m, i));
            }
        }
    }
}

/// Copying `k` bytes onto one row of the canvas.
proof fn lemma_scan_run_copies(
    s: Seq<u8>,
    p: int,
    k: int,
    x: int,
    y: int,
    w: int,
    h: int,
    c: Seq<u8>,
)
    requires
        0 <= k,
        0 <= x,
        x + k <= w,
        0 <= y < h,
        0 <= p,
        p + k <= s.len(),
        c.len() == w * h,
    ensures
        scan_run(s, p, k, x, y, w, h, c) == Some(
            (
                p + k,
                c.subrange(0, y * w + x) + s.subrange(p, p + k) + c.subrange(
                    y * w + x + k,
                    w * h,
                ),
            ),
        ),
    decreases k,
{
    assert(0 <= y * w) by (nonlinear_arith)
        requires
            0 <= y,
            0 <= w,
    ;
    assert(y * w + w <= w * h) by (nonlinear_arith)
        requires
            y + 1 <= h,
            0 <= w,
    ;
    let i = y * w + x;
    if k == 0 {
        assert(c.subrange(0, i) + s.subrange(p, p) + c.subrange(i, w * h) =~= c);
    } else {
        let u = put_pixel(c, w, h, x, y, s[p]);
        assert(u == c.update(i, s[p]));
        lemma_scan_run_copies(s, p + 1, k - 1, x + 1, y, w, h, u);
        assert(u.subrange(0, i + 1) + s.subrange(p + 1, p + k) + u.subrange(i + k, w * h)
            =~= c.subrange(0, i) + s.subrange(p, p + k) + c.subrange(i + k, w * h));
    }
}

/// Uncompressed rows `y .. h` of a full-canvas frame copy the data in order.
proof fn lemma_raw_rows(s: Seq<u8>, off: int, y: int, w: int, h: int, c: Seq<u8>)
    requires
        0 <= y <= h,
        1 <= w,
        c.len() == w * h,
        0 <= off,
        off + w * h <= s.len(),
    ensures
        decode_rows(s, off + y * w, h - y, RowEncoding::Raw, 0, y, w, w, h, c) == Some(
            c.subrange(0, y * w) + s.subrange(off + y * w, off + w * h),
        ),
    decreases h - y,
{
    assert(0 <= y * w) by (nonlinear_arith)
        requires
            0 <= y,
            0 <= w,
    ;
    assert(y * w <= h * w) by (nonlinear_arith)
        requires
            y <= h,
            0 <= w,
    ;
    assert((y + 1) * w == y * w + w) by (nonlinear_arith);
    if y == h {
        assert(c.subrange(0, y * w) + s.subrange(off + y * w, off + w * h) =~= c);
    } else {
        let pos = off + y * w;
        assert(y * w + w <= w * h) by (nonlinear_arith)
            requires
                y + 1 <= h,
                0 <= w,
        ;
        lemma_scan_run_copies(s, pos, w, 0, y, w, h, c);
        let c2 = c.subrange(0, y * w) + s.subrange(pos, pos + w) + c.subrange(y * w + w, w * h);
        lemma_raw_rows(s, off, y + 1, w, h, c2);
        assert(c2.subrange(0, (y + 1) * w) + s.subrange(off + (y + 1) * w, off + w * h)
            =~= c.subrange(0, y * w) + s.subrange(off + y * w, off + w * h));
    }
}

/// The 24 bytes at the position of header `i` are the header written for it.
proof fn lemma_header_bytes(m: ShpModel, i: int)
    requires
        0 <= i < m.frames.len(),
    ensures
        forall|j: int|
            0 <= j < 24 ==> spec_save(m)[frame_header_pos(i) + j] == #[trigger] encode_frame_header(
                m,
                i,
            )[j],
{
    let n = m.frames.len();
    lemma_save_layout(m);
    lemma_encode_headers(m, n);
    assert forall|j: int| 0 <= j < 24 implies spec_save(m)[frame_header_pos(i) + j]
        == #[trigger] encode_frame_header(m, i)[j] by {
        assert(spec_save(m)[8 + (24 * i + j)] == encode_headers(m, n)[24 * i + j]);
    }
}

/// The header read back for frame `i`.
#[verifier::rlimit(60)]
proof fn lemma_header_read_back(m: ShpModel, i: int)
    requires
        saves_faithfully(m),
        0 <= i < m.frames.len(),
    ensures
        frame_header_at(spec_save(m), i) == (FrameHeader {
            x: 0,
            y: 0,
            w: m.width as u16,
            h: m.height as u16,
            flags: 0,
            data_off: data_offset(m, i) as u32,
        }),
{
    let s = spec_save(m);
    let b = frame_header_pos(i);
    let hd = encode_frame_header(m, i);
    lemma_header_bytes(m, i);
    lemma_data_offset(m, i);
    let off = data_offset(m, i);
    let w = m.width as int;
    let h = m.height as int;
    lemma_bytes16(w);
    lemma_bytes16(h);
    lemma_bytes32(off);
    assert(hd[0] == 0 && hd[1] == 0 && hd[2] == 0 && hd[3] == 0);
    assert(hd[4] == byte0(w) && hd[5] == byte1(w) && hd[6] == byte0(h) && hd[7] == byte1(h));
    assert(hd[8] == 0 && hd[9] == 0 && hd[10] == 0 && hd[11] == 0);
    assert(hd[20] == byte0(off) && hd[21] == byte1(off) && hd[22] == byte2(off) && hd[23]
        == byte3(off));
    assert(le16(s, b) == 0);
    assert(le16(s, b + 2) == 0);
    assert(le16(s, b + 4) == w);
    assert(le16(s, b + 6) == h);
    assert(le32(s, b + 8) == 0);
    assert(le32(s, b + 20) == off);
}

/// Frame `i` decodes back to its pixels.
proof fn lemma_frame_read_back(m: ShpModel, i: int)
    requires
        saves_faithfully(m),
        0 <= i < m.frames.len(),
    ensures
        decode_frame(spec_save(m), frame_header_at(spec_save(m), i), m.width as int, m.height as int)
            == Ok::<Seq<u8>, ShpError>(m.frames[i]),
{
    let s = spec_save(m);
    let n = m.frames.len();
    let w = m.width as int;
    let h = m.height as int;
    let wh = w * h;
    lemma_header_read_back(m, i);
    lemma_data_offset(m, i);
    let hd = frame_header_at(s, i);
    assert(frame_block(m, i) =~= m.frames[i]);
    if all_zero(frame_block(m, i)) {
        assert(blank_canvas(w, h) =~= m.frames[i]);
    } else {
        let eh = encode_headers(m, n);
        let ed = encode_data(m, n);
        lemma_save_layout(m);
        lemma_encode_headers(m, n);
        lemma_encode_data(m, n);
        lemma_nonblank_count_mono(m, i as nat, n);
        let ci = nonblank_count(m, i as nat);
        let cn = nonblank_count(m, n);
        assert(ci * wh + wh <= cn * wh) by (nonlinear_arith)
            requires
                ci + 1 <= cn,
                0 <= wh,
        ;
        assert(0 <= ci * wh) by (nonlinear_arith)
            requires
                0 <= ci,
                0 <= wh,
        ;
        let off = data_offset(m, i);
        assert(off == 8 + 24 * n + ci * wh);
        assert(s.len() == 8 + 24 * n + cn * wh);
        assert(off + wh <= s.len());
        assert(0u32 & 3u32 == 0u32) by (bit_vector);
        assert(0u32 & 2u32 == 0u32) by (bit_vector);
        assert(row_encoding(0) == RowEncoding::Raw);
        assert(1 <= w);
        assert(wh == m.width * m.height);
        lemma_raw_rows(s, off, 0, w, h, blank_canvas(w, h));
        assert(blank_canvas(w, h).subrange(0, 0 * w) + s.subrange(off + 0 * w, off + w * h)
            =~= s.subrange(off, off + wh));
        assert forall|j: int| 0 <= j < wh implies #[trigger] s.subrange(off, off + wh)[j] == ed.subrange(ci * wh, ci * wh + wh)[j] by {
            assert(s[8 + eh.len() + (ci * wh + j)] == ed[ci * wh + j]);
        }
        assert(s.subrange(off, off + wh) =~= ed.subrange(ci * wh, ci * wh + wh));
    }
}

proof fn lemma_frames_read_back(m: ShpModel, k: nat)
    requires
        saves_faithfully(m),
        k <= m.frames.len(),
    ensures
        decode_frames(spec_save(m), m.width as int, m.height as int, k) == Ok::<
            Seq<Seq<u8>>,
            ShpError,
        >(m.frames.take(k as int)),
    decreases k,
{
    if k > 0 {
        let s = spec_save(m);
        let w = m.width as int;
        let h = m.height as int;
        lemma_frames_read_back(m, (k - 1) as nat);
        lemma_frame_read_back(m, k - 1);
        let prev = decode_frames(s, w, h, (k - 1) as nat);
        assert(prev == Ok::<Seq<Seq<u8>>, ShpError>(m.frames.take(k - 1)));
        assert(decode_frame(s, frame_header_at(s, k - 1), w, h) == Ok::<Seq<u8>, ShpError>(
            m.frames[k - 1],
        ));
        assert(m.frames.take(k - 1).push(m.frames[k - 1]) =~= m.frames.take(k as int));
    } else {
        assert(m.frames.take(0) =~= Seq::<Seq<u8>>::empty());
    }
}

/// The file header reads back as zero, width, height and frame count, and
/// the file is long enough for all frame headers.
proof fn lemma_file_header_read_back(m: ShpModel)
    requires
        saves_faithfully(m),
    ensures
        spec_save(m).len() >= frame_header_pos(m.frames.len() as int),
        le16(spec_save(m), 0) == 0,
        le16(spec_save(m), 2) == m.width,
        le16(spec_save(m), 4) == m.height,
        le16(spec_save(m), 6) == m.frames.len(),
{
    let s = spec_save(m);
    let n = m.frames.len();
    lemma_save_layout(m);
    lemma_encode_headers(m, n);
    lemma_encode_data(m, n);
    lemma_bytes16(m.width as int);
    lemma_bytes16(m.height as int);
    lemma_bytes16(n as int);
    let fh = encode_file_header(m);
    assert(fh[0] == 0 && fh[1] == 0 && fh[2] == byte0(m.width as int) && fh[3] == byte1(
        m.width as int,
    ));
    assert(fh[4] == byte0(m.height as int) && fh[5] == byte1(m.height as int) && fh[6] == byte0(
        n as int,
    ) && fh[7] == byte1(n as int));
    assert(s[0] == 0 && s[1] == 0);
    assert(s[2] == byte0(m.width as int) && s[3] == byte1(m.width as int));
    assert(s[4] == byte0(m.height as int) && s[5] == byte1(m.height as int));
    assert(s[6] == byte0(n as int) && s[7] == byte1(n as int));
    assert(0 <= nonblank_count(m, n) * (m.width * m.height)) by (nonlinear_arith)
        requires
            0 <= m.width * m.height,
    ;
}

/// Writing an SHP and reading the bytes back gives the same canvas size and
/// the same frames, for every SHP whose size and frame count fit the
/// format's 16-bit fields, whose frames hold exactly `width * height`
/// pixels, and whose written frames start at offsets that fit in 32 bits.
pub proof fn lemma_save_then_load(m: ShpModel)
    requires
        saves_faithfully(m),
    ensures
        spec_load(spec_save(m)) == Ok::<ShpModel, ShpError>(m),
{
    let s = spec_save(m);
    let n = m.frames.len();
    lemma_file_header_read_back(m);
    lemma_frames_read_back(m, n);
    assert(m.frames.take(n as int) =~= m.frames);
}

} // verus!
