use shp_editor::shp::{Frame, SHP};
use shp_editor::shp_format::ShpError;

fn le16(v: u16) -> [u8; 2] {
    v.to_le_bytes()
}

fn file_header(w: u16, h: u16, n: u16) -> Vec<u8> {
    let mut out = Vec::new();
    out.extend_from_slice(&le16(0));
    out.extend_from_slice(&le16(w));
    out.extend_from_slice(&le16(h));
    out.extend_from_slice(&le16(n));
    out
}

fn frame_header(x: u16, y: u16, w: u16, h: u16, flags: u32, off: u32) -> Vec<u8> {
    let mut out = Vec::new();
    out.extend_from_slice(&le16(x));
    out.extend_from_slice(&le16(y));
    out.extend_from_slice(&le16(w));
    out.extend_from_slice(&le16(h));
    out.extend_from_slice(&flags.to_le_bytes());
    out.extend_from_slice(&[0, 0, 0, 0]);
    out.extend_from_slice(&0i32.to_le_bytes());
    out.extend_from_slice(&off.to_le_bytes());
    out
}

/// A one-frame file whose frame data follows the headers directly.
fn one_frame_file(w: u16, h: u16, fx: u16, fy: u16, fw: u16, fh: u16, flags: u32, data: &[u8]) -> Vec<u8> {
    let mut out = file_header(w, h, 1);
    out.extend(frame_header(fx, fy, fw, fh, flags, 32));
    out.extend_from_slice(data);
    out
}

#[test]
fn new_makes_transparent_frames() {
    let shp = SHP::new(3, 2, 4);
    assert_eq!(shp.width, 3);
    assert_eq!(shp.height, 2);
    assert_eq!(shp.frames.len(), 4);
    for f in &shp.frames {
        assert_eq!(f.pixels, vec![0u8; 6]);
    }
}

#[test]
fn set_pixel_writes_one_index() {
    let mut shp = SHP::new(3, 2, 2);
    shp.set_pixel(1, 2, 1, 9);
    assert_eq!(shp.frames[1].pixels, vec![0, 0, 0, 0, 0, 9]);
    assert_eq!(shp.frames[0].pixels, vec![0u8; 6]);
}

#[test]
fn set_pixel_ignores_points_off_the_canvas() {
    let mut shp = SHP::new(3, 2, 1);
    shp.set_pixel(0, 3, 0, 9);
    shp.set_pixel(0, 0, 2, 9);
    shp.set_pixel(5, 0, 0, 9);
    assert_eq!(shp.frames[0].pixels, vec![0u8; 6]);
}

#[test]
fn save_without_frames_fails() {
    let shp = SHP::new(2, 2, 0);
    assert_eq!(shp.save().err(), Some(ShpError::NoFrames));
}

#[test]
fn save_writes_headers_then_non_transparent_frames() {
    let mut shp = SHP::new(2, 1, 2);
    shp.set_pixel(1, 1, 0, 5);
    let bytes = shp.save().unwrap();
    let mut expected = file_header(2, 1, 2);
    expected.extend(frame_header(0, 0, 2, 1, 0, 0));
    expected.extend(frame_header(0, 0, 2, 1, 0, 56));
    expected.extend_from_slice(&[0, 5]);
    assert_eq!(bytes, expected);
}

#[test]
fn save_then_load_gives_the_same_sprite() {
    let mut shp = SHP::new(3, 2, 3);
    shp.set_pixel(0, 0, 0, 1);
    shp.set_pixel(0, 2, 1, 200);
    shp.set_pixel(2, 1, 1, 7);
    let bytes = shp.save().unwrap();
    let back = SHP::load(&bytes).unwrap();
    assert_eq!(back.width, 3);
    assert_eq!(back.height, 2);
    assert_eq!(back.frames.len(), 3);
    for i in 0..3 {
        assert_eq!(back.frames[i].pixels, shp.frames[i].pixels);
    }
}

#[test]
fn save_writes_only_the_canvas_part_of_each_frame() {
    let shp = SHP { width: 2, height: 1, frames: vec![Frame { pixels: vec![3, 4, 5] }] };
    let bytes = shp.save().unwrap();
    assert_eq!(bytes.len(), 8 + 24 + 2);
    assert_eq!(&bytes[32..], &[3, 4]);
    let back = SHP::load(&bytes).unwrap();
    assert_eq!(back.frames[0].pixels, vec![3, 4]);
}

#[test]
fn load_rejects_a_short_header() {
    assert_eq!(SHP::load(&[0, 0, 1, 0, 1, 0, 1]).err(), Some(ShpError::HeaderTooShort));
}

#[test]
fn load_rejects_a_non_zero_first_word() {
    let mut bytes = file_header(1, 1, 1);
    bytes[0] = 1;
    assert_eq!(SHP::load(&bytes).err(), Some(ShpError::NotShp));
}

#[test]
fn load_rejects_a_zero_size() {
    assert_eq!(SHP::load(&file_header(0, 4, 1)).err(), Some(ShpError::InvalidSize));
    assert_eq!(SHP::load(&file_header(4, 0, 1)).err(), Some(ShpError::InvalidSize));
    assert_eq!(SHP::load(&file_header(4, 4, 0)).err(), Some(ShpError::InvalidSize));
}

#[test]
fn load_rejects_missing_frame_headers() {
    assert_eq!(SHP::load(&file_header(4, 4, 1)).err(), Some(ShpError::UnexpectedEof));
}

#[test]
fn load_rejects_an_offset_past_the_end() {
    let mut bytes = file_header(2, 2, 1);
    bytes.extend(frame_header(0, 0, 2, 2, 0, 32));
    assert_eq!(SHP::load(&bytes).err(), Some(ShpError::OffsetOutOfRange));
}

#[test]
fn load_rejects_truncated_rows() {
    let bytes = one_frame_file(2, 2, 0, 0, 2, 2, 0, &[1, 2, 3]);
    assert_eq!(SHP::load(&bytes).err(), Some(ShpError::UnexpectedEof));
}

#[test]
fn load_decodes_run_length_rows() {
    // row: length 6, then 7, a run of two transparent pixels, then 9
    let bytes = one_frame_file(4, 1, 0, 0, 4, 1, 3, &[6, 0, 7, 0, 2, 9]);
    let shp = SHP::load(&bytes).unwrap();
    assert_eq!(shp.frames[0].pixels, vec![7, 0, 0, 9]);
}

#[test]
fn load_rejects_a_run_that_overruns_its_row() {
    // the zero byte is the last byte of the row's budget
    let bytes = one_frame_file(4, 1, 0, 0, 4, 1, 3, &[4, 0, 7, 0, 3]);
    assert_eq!(SHP::load(&bytes).err(), Some(ShpError::UnexpectedEof));
}

#[test]
fn load_decodes_scanline_rows() {
    let bytes = one_frame_file(4, 2, 0, 1, 3, 1, 2, &[5, 0, 1, 2, 3]);
    let shp = SHP::load(&bytes).unwrap();
    assert_eq!(shp.frames[0].pixels, vec![0, 0, 0, 0, 1, 2, 3, 0]);
}

#[test]
fn load_decodes_raw_rows_at_the_frame_offset() {
    let bytes = one_frame_file(4, 1, 1, 0, 2, 1, 0, &[4, 5]);
    let shp = SHP::load(&bytes).unwrap();
    assert_eq!(shp.frames[0].pixels, vec![0, 4, 5, 0]);
}

#[test]
fn load_drops_pixels_off_the_canvas() {
    let bytes = one_frame_file(2, 1, 1, 0, 3, 1, 0, &[4, 5, 6]);
    let shp = SHP::load(&bytes).unwrap();
    assert_eq!(shp.frames[0].pixels, vec![0, 4]);
}

#[test]
fn load_keeps_a_frame_without_data_transparent() {
    let mut bytes = file_header(2, 2, 1);
    bytes.extend(frame_header(0, 0, 2, 2, 0, 0));
    let shp = SHP::load(&bytes).unwrap();
    assert_eq!(shp.frames[0].pixels, vec![0u8; 4]);
}
