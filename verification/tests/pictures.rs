use shp_editor::image_io::ImageKind;
use shp_editor::picture::{decode_picture, gif_frames_to_pictures, PictureError};

fn png_bytes(w: u32, h: u32, data: Vec<u8>) -> Vec<u8> {
    let img = image::RgbaImage::from_raw(w, h, data).unwrap();
    let mut out = std::io::Cursor::new(Vec::new());
    img.write_to(&mut out, image::ImageOutputFormat::Png).unwrap();
    out.into_inner()
}

fn gif_bytes(w: u16, h: u16, frames: &[(u16, u16, Vec<u8>)]) -> Vec<u8> {
    let mut out = Vec::new();
    {
        let mut enc = gif::Encoder::new(&mut out, w, h, &[]).unwrap();
        for (fw, fh, px) in frames {
            let mut px = px.clone();
            let frame = gif::Frame::from_rgba(*fw, *fh, &mut px);
            enc.write_frame(&frame).unwrap();
        }
    }
    out
}

#[test]
fn png_gives_one_picture() {
    let data = vec![255, 0, 0, 255, 0, 0, 255, 255];
    let frames = decode_picture(&png_bytes(2, 1, data.clone()), ImageKind::Png).unwrap();
    assert_eq!(frames.len(), 1);
    assert_eq!(frames[0].width, 2);
    assert_eq!(frames[0].height, 1);
    assert_eq!(frames[0].data, data);
}

#[test]
fn animated_png_is_read_as_png() {
    let data = vec![1, 2, 3, 255];
    let frames = decode_picture(&png_bytes(1, 1, data.clone()), ImageKind::Apng).unwrap();
    assert_eq!(frames.len(), 1);
    assert_eq!(frames[0].data, data);
}

#[test]
fn bytes_that_are_no_picture_fail_to_decode() {
    let junk = [1u8, 2, 3, 4, 5];
    assert!(matches!(decode_picture(&junk, ImageKind::Png), Err(PictureError::Decode(_))));
    assert!(matches!(decode_picture(&junk, ImageKind::Jpeg), Err(PictureError::Decode(_))));
    assert!(matches!(decode_picture(&junk, ImageKind::Gif), Err(PictureError::Decode(_))));
}

#[test]
fn png_read_as_jpeg_fails() {
    let bytes = png_bytes(1, 1, vec![1, 2, 3, 255]);
    assert!(matches!(decode_picture(&bytes, ImageKind::Jpeg), Err(PictureError::Decode(_))));
}

#[test]
fn gif_gives_every_frame() {
    let a = vec![255, 0, 0, 255, 0, 255, 0, 255];
    let b = vec![0, 0, 255, 255, 255, 0, 0, 255];
    let bytes = gif_bytes(2, 1, &[(2, 1, a.clone()), (2, 1, b.clone())]);
    let frames = decode_picture(&bytes, ImageKind::Gif).unwrap();
    assert_eq!(frames.len(), 2);
    assert_eq!((frames[0].width, frames[0].height), (2, 1));
    assert_eq!(frames[0].data, a);
    assert_eq!(frames[1].data, b);
}

#[test]
fn gif_header_without_frames() {
    // header, logical screen of 2 by 2 without a colour table, trailer:
    // the decoder reaches the end of the data looking for a frame
    let bytes = [b'G', b'I', b'F', b'8', b'9', b'a', 2, 0, 2, 0, 0, 0, 0, 0x3B];
    assert!(matches!(decode_picture(&bytes, ImageKind::Gif), Err(PictureError::Decode(_))));
}

#[test]
fn gif_frame_smaller_than_the_screen() {
    let bytes = gif_bytes(4, 4, &[(2, 2, vec![9u8; 16])]);
    assert!(matches!(decode_picture(&bytes, ImageKind::Gif), Err(PictureError::FrameDecode)));
}

#[test]
fn frame_buffers_become_pictures() {
    let res = gif_frames_to_pictures(1, 1, vec![vec![1, 2, 3, 4, 5], vec![6, 7, 8, 9]], None).unwrap();
    assert_eq!(res.len(), 2);
    assert_eq!(res[0].data, vec![1, 2, 3, 4]);
    assert_eq!(res[1].data, vec![6, 7, 8, 9]);
}

#[test]
fn a_short_buffer_comes_before_the_reading_error() {
    let res = gif_frames_to_pictures(1, 1, vec![vec![1, 2]], Some("bad".to_string()));
    assert!(matches!(res, Err(PictureError::FrameDecode)));
    let res = gif_frames_to_pictures(1, 1, vec![vec![1, 2, 3, 4]], Some("bad".to_string()));
    match res {
        Err(PictureError::Decode(m)) => assert_eq!(m, "bad"),
        _ => panic!("expected the reading error"),
    }
    assert!(matches!(gif_frames_to_pictures(3, 3, vec![], None), Err(PictureError::NoFrames)));
}
