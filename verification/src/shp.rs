//! The SHP sprite: a canvas size and a list of frames of palette indices.
use vstd::prelude::*;

use crate::shp_decode::{decode_frame_exec, read_frame_header, read_le16};
use crate::shp_format::{
    all_zero, data_cursor, data_offset, encode_data, encode_file_header, encode_frame_header,
    encode_headers, frame_block, le16_bytes, le32_bytes, spec_save,
    decode_frames, frame_header_at, le16, frame_header_pos, lemma_decode_frames_err, spec_load,
    FrameHeader, ShpError, ShpModel,
};

verus! {

/// One frame: `width * height` palette indices, row by row.
#[derive(Clone)]
pub struct Frame {
    pub pixels: Vec<u8>,
}

/// A sprite of equally sized frames.
#[derive(Clone)]
pub struct SHP {
    pub width: u32,
    pub height: u32,
    pub frames: Vec<Frame>,
}

/// The pixels of each frame.
pub open spec fn frames_view(fs: Seq<Frame>) -> Seq<Seq<u8>> {
    fs.map_values(|f: Frame| f.pixels@)
}

impl View for SHP {
    type V = ShpModel;

    open spec fn view(&self) -> ShpModel {
        ShpModel { width: self.width, height: self.height, frames: frames_view(self.frames@) }
    }
}

impl SHP {
    /// Every frame holds exactly `width * height` pixels, and a pixel's index
    /// `y * width + x` fits the `u32` arithmetic that computes it.
    pub open spec fn wf(&self) -> bool {
        &&& self.width * self.height <= u32::MAX
        &&& forall|i: int|
            0 <= i < self.frames@.len() ==> #[trigger] self.frames@[i].pixels@.len() == self.width
                * self.height
    }

    /// A `width` by `height` SHP of `frames` fully transparent frames.
    pub fn new(width: u32, height: u32, frames: usize) -> (shp: SHP)
        requires
            width * height <= u32::MAX,
        ensures
            shp.width == width,
            shp.height == height,
            shp.frames@.len() == frames,
            forall|i: int|
                0 <= i < frames ==> #[trigger] shp.frames@[i].pixels@ == Seq::new(
                    (width * height) as nat,
                    |k: int| 0u8,
                ),
            shp.wf(),
    {
        let mut f: Vec<Frame> = Vec::new();
        let mut i: usize = 0;
        while i < frames
            invariant
                i <= frames,
                width * height <= u32::MAX,
                f@.len() == i,
                forall|j: int|
                    0 <= j < i ==> #[trigger] f@[j].pixels@ == Seq::new(
                        (width * height) as nat,
                        |k: int| 0u8,
                    ),
            decreases frames - i,
        {
            let pixels = vec![0u8; (width * height) as usize];
            assert(pixels@ =~= Seq::new((width * height) as nat, |k: int| 0u8));
            f.push(Frame { pixels });
            i = i + 1;
        }
        SHP { width, height, frames: f }
    }

    /// Sets the pixel at `(x, y)` of frame `frame` to palette index `index`;
    /// does nothing when the frame or the point does not exist.
    pub fn set_pixel(&mut self, frame: usize, x: u32, y: u32, index: u8)
        requires
            frame < old(self).frames@.len() && x < old(self).width && y < old(self).height ==> {
                &&& y * old(self).width + x <= u32::MAX
                &&& y * old(self).width + x < old(self).frames@[frame as int].pixels@.len()
            },
        ensures
            final(self).width == old(self).width,
            final(self).height == old(self).height,
            final(self).frames@.len() == old(self).frames@.len(),
            frame < old(self).frames@.len() && x < old(self).width && y < old(self).height ==> {
                &&& final(self).frames@[frame as int].pixels@ == old(self).frames@[frame as int].pixels@.update(
                    y * old(self).width + x,
                    index,
                )
                &&& forall|j: int|
                    0 <= j < old(self).frames@.len() && j != frame ==> #[trigger] final(self).frames@[j]
                        == old(self).frames@[j]
            },
            !(frame < old(self).frames@.len() && x < old(self).width && y < old(self).height)
                ==> *final(self) == *old(self),
    {
        if frame >= self.frames.len() {
            return;
        }
        if x >= self.width || y >= self.height {
            return;
        }
        proof {
            assert(0 <= y * self.width) by (nonlinear_arith)
                requires
                    0 <= y,
                    0 <= self.width,
            ;
        }
        let i = (y * self.width + x) as usize;
        self.frames[frame].pixels[i] = index;
    }
}

/// Appends the two bytes of `v`, least significant first.
fn push_le16(out: &mut Vec<u8>, v: u16)
    ensures
        final(out)@ == old(out)@ + le16_bytes(v as int),
{
    out.push((v % 256) as u8);
    out.push((v / 256) as u8);
    assert(final(out)@ =~= old(out)@ + le16_bytes(v as int));
}

/// Appends the four bytes of `v`, least significant first.
fn push_le32(out: &mut Vec<u8>, v: u32)
    ensures
        final(out)@ == old(out)@ + le32_bytes(v as int),
{
    out.push((v % 256) as u8);
    out.push(((v / 256) % 256) as u8);
    out.push(((v / 65536) % 256) as u8);
    out.push((v / 16777216) as u8);
    assert(final(out)@ =~= old(out)@ + le32_bytes(v as int));
}

/// Whether every byte is zero.
fn is_all_zero(b: &Vec<u8>) -> (r: bool)
    ensures
        r == all_zero(b@),
{
    let mut i: usize = 0;
    while i < b.len()
        invariant
            i <= b@.len(),
            forall|j: int| 0 <= j < i ==> b@[j] == 0,
        decreases b@.len() - i,
    {
        if b[i] != 0 {
            return false;
        }
        i = i + 1;
    }
    true
}

impl SHP {
    /// Encodes the SHP: the file header, one header per frame describing the
    /// whole canvas stored uncompressed, then the data of every frame that
    /// is not fully transparent (a transparent frame is written with data
    /// offset zero and no data).
    pub fn save(&self) -> (res: Result<Vec<u8>, ShpError>)
        requires
            self.width * self.height <= u32::MAX,
            8 + 24 * self.frames@.len() <= usize::MAX,
            forall|i: int|
                0 <= i < self.frames@.len() ==> self.frames@[i].pixels@.len() >= self.width
                    * self.height,
        ensures
            self.frames@.len() == 0 ==> res == Err::<Vec<u8>, ShpError>(ShpError::NoFrames),
            self.frames@.len() > 0 ==> (res matches Ok(out) && out@ == spec_save(self@)),
    {
        if self.frames.len() == 0 {
            return Err(ShpError::NoFrames);
        }
        let n = self.frames.len();
        let header_size: usize = 8 + 24 * n;
        let wh: usize = (self.width * self.height) as usize;
        let ghost m = self@;
        assert(m.frames.len() == n);
        // the first `wh` pixels of every frame
        let mut blocks: Vec<Vec<u8>> = Vec::new();
        let mut fi: usize = 0;
        while fi < n
            invariant
                fi <= n,
                n == self.frames@.len(),
                m == self@,
                wh == self.width * self.height,
                forall|i: int|
                    0 <= i < self.frames@.len() ==> self.frames@[i].pixels@.len() >= wh,
                blocks@.len() == fi,
                forall|j: int| 0 <= j < fi ==> blocks@[j]@ == frame_block(m, j),
            decreases n - fi,
        {
            let mut block: Vec<u8> = Vec::new();
            let mut i: usize = 0;
            while i < wh
                invariant
                    i <= wh,
                    fi < self.frames@.len(),
                    self.frames@[fi as int].pixels@.len() >= wh,
                    block@ == self.frames@[fi as int].pixels@.take(i as int),
                decreases wh - i,
            {
                block.push(self.frames[fi].pixels[i]);
                i = i + 1;
                assert(block@ =~= self.frames@[fi as int].pixels@.take(i as int));
            }
            assert(block@ == frame_block(m, fi as int));
            blocks.push(block);
            fi = fi + 1;
        }
        // data offsets
        let mut offsets: Vec<u32> = Vec::new();
        let mut cursor: u32 = #[verifier::truncate] (header_size as u32);
        let mut i: usize = 0;
        while i < n
            invariant
                i <= n,
                n == m.frames.len(),
                wh == m.width * m.height,
                wh <= u32::MAX,
                blocks@.len() == n,
                forall|j: int| 0 <= j < n ==> blocks@[j]@ == frame_block(m, j),
                offsets@.len() == i,
                forall|j: int| 0 <= j < i ==> offsets@[j] == data_offset(m, j),
                cursor == data_cursor(m, i as nat),
            decreases n - i,
        {
            if is_all_zero(&blocks[i]) {
                offsets.push(0);
            } else {
                offsets.push(cursor);
                cursor = cursor.saturating_add(wh as u32);
            }
            i = i + 1;
        }
        // file header and frame headers
        let mut out: Vec<u8> = Vec::new();
        push_le16(&mut out, 0);
        push_le16(&mut out, #[verifier::truncate] (self.width as u16));
        push_le16(&mut out, #[verifier::truncate] (self.height as u16));
        push_le16(&mut out, #[verifier::truncate] (n as u16));
        assert(out@ =~= encode_file_header(m) + encode_headers(m, 0));
        let mut i: usize = 0;
        while i < n
            invariant
                i <= n,
                n == m.frames.len(),
                m == self@,
                offsets@.len() == n,
                forall|j: int| 0 <= j < n ==> offsets@[j] == data_offset(m, j),
                out@ == encode_file_header(m) + encode_headers(m, i as nat),
            decreases n - i,
        {
            let ghost before = out@;
            push_le16(&mut out, 0);
            push_le16(&mut out, 0);
            push_le16(&mut out, #[verifier::truncate] (self.width as u16));
            push_le16(&mut out, #[verifier::truncate] (self.height as u16));
            push_le32(&mut out, 0);
            out.push(0);
            out.push(0);
            out.push(0);
            out.push(0);
            push_le32(&mut out, 0);
            push_le32(&mut out, offsets[i]);
            assert(out@ =~= before + encode_frame_header(m, i as int));
            i = i + 1;
            assert(out@ =~= encode_file_header(m) + encode_headers(m, i as nat));
        }
        // frame data
        let mut i: usize = 0;
        assert(out@ =~= encode_file_header(m) + encode_headers(m, n as nat) + encode_data(m, 0));
        while i < n
            invariant
                i <= n,
                n == m.frames.len(),
                blocks@.len() == n,
                forall|j: int| 0 <= j < n ==> blocks@[j]@ == frame_block(m, j),
                offsets@.len() == n,
                forall|j: int| 0 <= j < n ==> offsets@[j] == data_offset(m, j),
                out@ == encode_file_header(m) + encode_headers(m, n as nat) + encode_data(
                    m,
                    i as nat,
                ),
            decreases n - i,
        {
            if offsets[i] != 0 {
                out.extend_from_slice(blocks[i].as_slice());
            }
            i = i + 1;
            assert(out@ =~= encode_file_header(m) + encode_headers(m, n as nat) + encode_data(
                m,
                i as nat,
            ));
        }
        proof {
            reveal(spec_save);
        }
        Ok(out)
    }

    /// Decodes an SHP file.
    pub fn load(bytes: &[u8]) -> (res: Result<SHP, ShpError>)
        ensures
            res matches Ok(shp) ==> shp.wf() && 1 <= shp.width <= 65535 && 1 <= shp.height
                <= 65535 && 1 <= shp.frames@.len() <= 65535,
            match res {
                Ok(shp) => spec_load(bytes@) == Ok::<ShpModel, ShpError>(shp@),
                Err(e) => spec_load(bytes@) == Err::<ShpModel, ShpError>(e),
            },
    {
        if bytes.len() < 8 {
            return Err(ShpError::HeaderTooShort);
        }
        let zero = read_le16(bytes, 0);
        if zero != 0 {
            return Err(ShpError::NotShp);
        }
        let w = read_le16(bytes, 2) as usize;
        let h = read_le16(bytes, 4) as usize;
        let n = read_le16(bytes, 6) as usize;
        if w == 0 || h == 0 || n == 0 {
            return Err(ShpError::InvalidSize);
        }
        if bytes.len() < 8 + 24 * n {
            return Err(ShpError::UnexpectedEof);
        }
        let mut headers: Vec<FrameHeader> = Vec::new();
        let mut i: usize = 0;
        while i < n
            invariant
                i <= n,
                n <= 65535,
                frame_header_pos(n as int) <= bytes@.len(),
                headers@.len() == i,
                forall|j: int| 0 <= j < i ==> headers@[j] == frame_header_at(bytes@, j),
            decreases n - i,
        {
            let hd = read_frame_header(bytes, i);
            headers.push(hd);
            i = i + 1;
        }
        let mut frames: Vec<Frame> = Vec::new();
        let mut k: usize = 0;
        assert(frames_view(frames@) =~= Seq::<Seq<u8>>::empty());
        while k < n
            invariant
                k <= n,
                n == headers@.len(),
                bytes@.len() >= frame_header_pos(n as int),
                bytes@.len() >= 8,
                le16(bytes@, 0) == 0,
                w as int == le16(bytes@, 2),
                h as int == le16(bytes@, 4),
                n as int == le16(bytes@, 6),
                w != 0 && h != 0 && n != 0,
                frames@.len() == k,
                forall|j: int| 0 <= j < k ==> #[trigger] frames@[j].pixels@.len() == w * h,
                w <= 65535,
                h <= 65535,
                forall|j: int| 0 <= j < n ==> headers@[j] == frame_header_at(bytes@, j),
                decode_frames(bytes@, w as int, h as int, k as nat) == Ok::<
                    Seq<Seq<u8>>,
                    ShpError,
                >(frames_view(frames@)),
            decreases n - k,
        {
            let hd = headers[k];
            match decode_frame_exec(bytes, hd, w, h) {
                Ok(px) => {
                    let ghost before = frames@;
                    frames.push(Frame { pixels: px });
                    assert(frames_view(frames@) =~= frames_view(before).push(px@));
                },
                Err(e) => {
                    proof {
                        assert(decode_frames(bytes@, w as int, h as int, (k + 1) as nat) == Err::<
                            Seq<Seq<u8>>,
                            ShpError,
                        >(e));
                        lemma_decode_frames_err(
                            bytes@,
                            w as int,
                            h as int,
                            (k + 1) as nat,
                            n as nat,
                        );
                    }
                    return Err(e);
                },
            }
            k = k + 1;
        }
        proof {
            assert(w * h <= 65535 * 65535) by (nonlinear_arith)
                requires
                    w <= 65535,
                    h <= 65535,
            ;
        }
        Ok(SHP { width: w as u32, height: h as u32, frames })
    }
}

} // verus!
