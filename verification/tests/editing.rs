use shp_editor::color_match::Rgb;
use shp_editor::history::{clamp_frame_index, EditHistory, HistoryStep};
use shp_editor::image_io::{image_kind_for_extension, ImageKind};
use shp_editor::palette::Palette;
use shp_editor::preview::PreviewState;
use shp_editor::rgba::RgbaImage;
use shp_editor::shp::SHP;
use shp_editor::shp_format::ShpError;
use shp_editor::tool::{DrawAction, PointerEvent, StrokeState, Tool};

fn grey_picture(w: u32, h: u32, px: &[(u8, u8)]) -> RgbaImage {
    let mut data = Vec::new();
    for &(v, a) in px {
        data.extend_from_slice(&[v, v, v, a]);
    }
    RgbaImage { width: w, height: h, data }
}

#[test]
fn undo_then_redo() {
    let mut shp = SHP::new(2, 1, 1);
    let mut h = EditHistory::new(100);
    h.follow_frame(0);
    h.record(shp.frames[0].pixels.clone());
    shp.set_pixel(0, 0, 0, 5);
    assert_eq!(h.undo(&mut shp, 0), HistoryStep::Applied);
    assert_eq!(shp.frames[0].pixels, vec![0, 0]);
    assert_eq!(h.redo(&mut shp, 0), HistoryStep::Applied);
    assert_eq!(shp.frames[0].pixels, vec![5, 0]);
    assert_eq!(h.undo_stack, vec![vec![0u8, 0]]);
    assert!(h.redo_stack.is_empty());
}

#[test]
fn undo_with_nothing_recorded() {
    let mut shp = SHP::new(2, 1, 1);
    let mut h = EditHistory::new(10);
    assert_eq!(h.undo(&mut shp, 0), HistoryStep::Nothing);
    assert_eq!(h.redo(&mut shp, 0), HistoryStep::Nothing);
    assert_eq!(shp.frames[0].pixels, vec![0, 0]);
}

#[test]
fn switching_frames_drops_the_history() {
    let mut shp = SHP::new(1, 1, 2);
    let mut h = EditHistory::new(10);
    h.follow_frame(0);
    h.record(vec![3]);
    assert_eq!(h.undo(&mut shp, 1), HistoryStep::Reset);
    assert!(h.undo_stack.is_empty());
    assert!(h.redo_stack.is_empty());
    assert_eq!(h.undo_frame_anchor, Some(1));
    assert_eq!(shp.frames[0].pixels, vec![0]);
    assert_eq!(shp.frames[1].pixels, vec![0]);
}

#[test]
fn follow_frame_keeps_or_drops() {
    let mut h = EditHistory::new(10);
    h.follow_frame(2);
    assert_eq!(h.undo_frame_anchor, Some(2));
    h.record(vec![1]);
    h.follow_frame(2);
    assert_eq!(h.undo_stack.len(), 1);
    h.follow_frame(0);
    assert!(h.undo_stack.is_empty());
    assert_eq!(h.undo_frame_anchor, Some(0));
}

#[test]
fn history_keeps_at_most_its_limit() {
    let mut h = EditHistory::new(2);
    h.record(vec![1]);
    h.record(vec![2]);
    h.record(vec![3]);
    assert_eq!(h.undo_stack, vec![vec![2u8], vec![3u8]]);
}

#[test]
fn a_new_edit_clears_redo() {
    let mut shp = SHP::new(1, 1, 1);
    let mut h = EditHistory::new(10);
    h.record(vec![4]);
    assert_eq!(h.undo(&mut shp, 0), HistoryStep::Applied);
    assert_eq!(h.redo_stack.len(), 1);
    h.record(vec![6]);
    assert!(h.redo_stack.is_empty());
}

#[test]
fn undo_applies_to_the_last_frame_when_past_the_end() {
    assert_eq!(clamp_frame_index(7, 2), 1);
    assert_eq!(clamp_frame_index(0, 2), 0);
    assert_eq!(clamp_frame_index(3, 0), 0);
    let mut shp = SHP::new(1, 1, 2);
    let mut h = EditHistory::new(10);
    h.follow_frame(1);
    h.record(vec![9]);
    assert_eq!(h.undo(&mut shp, 5), HistoryStep::Applied);
    assert_eq!(shp.frames[1].pixels, vec![9]);
    assert_eq!(shp.frames[0].pixels, vec![0]);
}

#[test]
fn preview_starts_stopped() {
    let p = PreviewState::new();
    assert!(!p.playing);
    assert_eq!(p.current_frame, 0);
    assert_eq!(p.ms_per_frame, 150);
    assert_eq!(p.accumulator_ms, 0);
}

#[test]
fn preview_moves_one_frame_per_interval() {
    let mut p = PreviewState::new();
    p.playing = true;
    assert_eq!(p.advance(4, 320), Some(2));
    assert_eq!(p.accumulator_ms, 20);
    assert_eq!(p.advance(4, 100), None);
    assert_eq!(p.current_frame, 2);
    assert_eq!(p.accumulator_ms, 120);
    assert_eq!(p.advance(4, 330), Some(1));
    assert_eq!(p.accumulator_ms, 0);
}

#[test]
fn preview_wraps_after_the_last_frame() {
    let mut p = PreviewState::new();
    p.playing = true;
    p.current_frame = 3;
    assert_eq!(p.advance(4, 150), Some(0));
}

#[test]
fn preview_tick_when_stopped_or_empty() {
    let mut p = PreviewState::new();
    assert_eq!(p.tick(5), None);
    p.playing = true;
    assert_eq!(p.tick(0), None);
    assert_eq!(p.current_frame, 0);
}

#[test]
fn preview_tick_waits_for_a_full_interval() {
    let mut p = PreviewState::new();
    p.playing = true;
    p.ms_per_frame = 1_000_000_000;
    assert_eq!(p.tick(3), None);
    assert_eq!(p.current_frame, 0);
}

#[test]
fn paste_at_skips_nearly_transparent_pixels() {
    let mut shp = SHP::new(3, 1, 1);
    let pic = grey_picture(2, 1, &[(50, 255), (90, 7)]);
    shp.paste_rgba_at(0, &pic, 1, 0, &Palette::default_grayscale());
    assert_eq!(shp.frames[0].pixels, vec![0, 50, 0]);
}

#[test]
fn paste_at_uses_the_nearest_palette_colour() {
    let mut colors = [Rgb::from_rgb(0, 0, 0); 256];
    colors[1] = Rgb::from_rgb(255, 0, 0);
    colors[2] = Rgb::from_rgb(0, 0, 255);
    let pal = Palette { colors };
    let pic = RgbaImage { width: 2, height: 1, data: vec![200, 10, 10, 255, 10, 20, 180, 8] };
    let mut shp = SHP::new(2, 1, 1);
    shp.paste_rgba_at(0, &pic, 0, 0, &pal);
    assert_eq!(shp.frames[0].pixels, vec![1, 2]);
}

#[test]
fn paste_at_clips_to_the_canvas() {
    let mut shp = SHP::new(2, 2, 1);
    let pic = grey_picture(2, 2, &[(1, 255), (2, 255), (3, 255), (4, 255)]);
    shp.paste_rgba_at(0, &pic, -1, 1, &Palette::default_grayscale());
    assert_eq!(shp.frames[0].pixels, vec![0, 0, 2, 0]);
}

#[test]
fn paste_into_frame_centres_the_picture() {
    let mut shp = SHP::new(4, 1, 2);
    let pic = grey_picture(2, 1, &[(10, 255), (20, 255)]);
    shp.paste_rgba_into_frame(1, &pic, &Palette::default_grayscale());
    assert_eq!(shp.frames[1].pixels, vec![0, 10, 20, 0]);
    assert_eq!(shp.frames[0].pixels, vec![0, 0, 0, 0]);
}

#[test]
fn paste_into_frame_centres_a_larger_picture() {
    let mut shp = SHP::new(1, 1, 1);
    let pic = grey_picture(3, 1, &[(10, 255), (20, 255), (30, 255)]);
    shp.paste_rgba_into_frame(0, &pic, &Palette::default_grayscale());
    assert_eq!(shp.frames[0].pixels, vec![20]);
}

#[test]
fn paste_into_a_missing_frame_does_nothing() {
    let mut shp = SHP::new(2, 1, 1);
    let pic = grey_picture(1, 1, &[(10, 255)]);
    shp.paste_rgba_into_frame(3, &pic, &Palette::default_grayscale());
    assert_eq!(shp.frames[0].pixels, vec![0, 0]);
}

#[test]
fn picture_pixel_channels() {
    let pic = RgbaImage { width: 2, height: 1, data: vec![1, 2, 3, 4, 5, 6, 7, 8] };
    assert_eq!(pic.get_pixel(1, 0), [5, 6, 7, 8]);
}

#[test]
fn export_colours_each_pixel() {
    let mut shp = SHP::new(2, 1, 1);
    shp.set_pixel(0, 1, 0, 3);
    let img = shp.export_frame_rgba(0, &Palette::default_grayscale()).unwrap();
    assert_eq!(img.width, 2);
    assert_eq!(img.height, 1);
    assert_eq!(img.data, vec![0, 0, 0, 0, 3, 3, 3, 255]);
}

#[test]
fn export_of_a_missing_frame_fails() {
    let shp = SHP::new(2, 1, 1);
    assert_eq!(
        shp.export_frame_rgba(1, &Palette::default_grayscale()).err(),
        Some(ShpError::FrameOutOfRange)
    );
}

#[test]
fn preview_frame_choice() {
    let shp = SHP::new(2, 2, 3);
    assert_eq!(shp.texture_frame_index(1), Some(1));
    assert_eq!(shp.texture_frame_index(9), Some(0));
    let empty = SHP::new(0, 2, 3);
    assert_eq!(empty.texture_frame_index(0), None);
    let huge = SHP { width: 8001, height: 8000, frames: Vec::new() };
    assert_eq!(huge.texture_frame_index(0), None);
}

#[test]
fn picture_decoders_by_extension() {
    assert_eq!(image_kind_for_extension(b"PNG"), Some(ImageKind::Png));
    assert_eq!(image_kind_for_extension(b"jpg"), Some(ImageKind::Jpeg));
    assert_eq!(image_kind_for_extension(b"JpEg"), Some(ImageKind::Jpeg));
    assert_eq!(image_kind_for_extension(b"Gif"), Some(ImageKind::Gif));
    assert_eq!(image_kind_for_extension(b"apng"), Some(ImageKind::Apng));
    assert_eq!(image_kind_for_extension(b"bmp"), None);
    assert_eq!(image_kind_for_extension(b""), None);
}

#[test]
fn tools_compare() {
    assert_eq!(Tool::Pencil, Tool::Pencil);
    assert_ne!(Tool::Fill, Tool::Eraser);
}

#[test]
fn snapshot_of_a_frame_before_an_edit() {
    let mut shp = SHP::new(2, 1, 2);
    shp.set_pixel(1, 0, 0, 4);
    let mut h = EditHistory::new(10);
    h.save_undo_state_for_frame(&shp, 1);
    assert_eq!(h.undo_stack, vec![vec![4u8, 0]]);
    shp.set_pixel(1, 1, 0, 6);
    h.follow_frame(1);
    assert_eq!(h.undo(&mut shp, 1), HistoryStep::Applied);
    assert_eq!(shp.frames[1].pixels, vec![4, 0]);
}

#[test]
fn nearest_resize_of_a_single_pixel() {
    let pic = RgbaImage { width: 1, height: 1, data: vec![9, 8, 7, 255] };
    let big = pic.resized_nearest(2, 2);
    assert_eq!(big.width, 2);
    assert_eq!(big.height, 2);
    assert_eq!(big.data, vec![9, 8, 7, 255, 9, 8, 7, 255, 9, 8, 7, 255, 9, 8, 7, 255]);
}

#[test]
fn resize_to_the_same_size_copies() {
    let pic = RgbaImage { width: 2, height: 1, data: vec![1, 2, 3, 4, 5, 6, 7, 8] };
    let same = pic.resized_nearest(2, 1);
    assert_eq!(same.data, pic.data);
}

#[test]
fn a_tick_keeps_its_clock_reading() {
    let start = std::time::Instant::now();
    let mut p = PreviewState::new_at(start);
    assert_eq!(p.last_tick, start);
    p.playing = true;
    let later = start + std::time::Duration::from_millis(400);
    assert_eq!(p.tick_at(5, later, 400), Some(2));
    assert_eq!(p.last_tick, later);
    assert_eq!(p.accumulator_ms, 100);
}

#[test]
fn preview_frame_index_at_its_maximum_wraps_to_zero() {
    let mut p = PreviewState::new();
    p.playing = true;
    p.current_frame = usize::MAX;
    assert_eq!(p.advance(3, 150), Some(0));
    p.current_frame = usize::MAX;
    p.accumulator_ms = 0;
    assert_eq!(p.advance(3, 600), Some(0));
    p.current_frame = usize::MAX;
    assert_eq!(p.advance(3, 100), None);
    assert_eq!(p.current_frame, usize::MAX);
}

fn pointer(x: i32, y: i32, clicked: bool, dragged: bool, down: bool) -> PointerEvent {
    PointerEvent { x, y, clicked, dragged, down }
}

#[test]
fn pencil_press_stamps_and_starts_a_stroke() {
    let mut st = StrokeState::new();
    let (record, actions) = st.step(Tool::Pencil, pointer(1, 2, false, false, true), 7, false);
    assert!(record);
    assert_eq!(
        actions,
        vec![DrawAction::Stamp { x: 1, y: 2, color: 7 }, DrawAction::Stamp { x: 1, y: 2, color: 7 }]
    );
    assert!(st.drawing);
    let (record, actions) = st.step(Tool::Eraser, pointer(2, 2, false, true, true), 7, false);
    assert!(!record);
    assert_eq!(actions, vec![DrawAction::Stamp { x: 2, y: 2, color: 0 }]);
    let (_, actions) = st.step(Tool::Pencil, pointer(2, 2, false, false, false), 7, false);
    assert!(actions.is_empty());
    assert!(!st.drawing);
    assert_eq!(st.start, None);
}

#[test]
fn line_is_drawn_on_release() {
    let mut st = StrokeState::new();
    let (record, actions) = st.step(Tool::Line, pointer(0, 0, false, false, true), 3, false);
    assert!(record);
    assert!(actions.is_empty());
    let (record, actions) = st.step(Tool::Line, pointer(5, 1, false, true, true), 3, false);
    assert!(!record);
    assert!(actions.is_empty());
    assert_eq!(st.end, Some((5, 1)));
    let (_, actions) = st.step(Tool::Line, pointer(5, 1, false, false, false), 3, false);
    assert_eq!(actions, vec![DrawAction::Line { x0: 0, y0: 0, x1: 5, y1: 1, color: 3 }]);
    assert!(!st.drawing);
}

#[test]
fn shapes_are_filled_or_outlined() {
    let mut st = StrokeState::new();
    st.step(Tool::Rectangle, pointer(1, 1, false, false, true), 4, true);
    let (_, actions) = st.step(Tool::Rectangle, pointer(3, 2, false, false, false), 4, true);
    assert_eq!(
        actions,
        vec![DrawAction::Rect { x0: 1, y0: 1, x1: 1, y1: 1, color: 4, filled: true }]
    );
    st.step(Tool::Circle, pointer(2, 2, false, false, true), 4, false);
    st.step(Tool::Circle, pointer(4, 2, false, true, true), 4, false);
    let (_, actions) = st.step(Tool::Circle, pointer(4, 2, false, false, false), 4, false);
    assert_eq!(
        actions,
        vec![DrawAction::Circle { x0: 2, y0: 2, x1: 4, y1: 2, color: 4, filled: false }]
    );
}

#[test]
fn fill_is_done_on_the_click() {
    let mut st = StrokeState::new();
    let (record, actions) = st.step(Tool::Fill, pointer(2, 3, true, false, false), 9, false);
    assert!(record);
    assert_eq!(actions, vec![DrawAction::Fill { x: 2, y: 3, color: 9 }]);
    assert!(!st.drawing);
}
