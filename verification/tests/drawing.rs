use shp_editor::draw::{fill_rect_on_frame, frame_get_pixel, frame_set_pixel};
use shp_editor::fill::flood_fill_on_frame;
use shp_editor::line::{draw_line_on_frame, line_fits};
use shp_editor::shapes::{
    circle_fits_check, disc_fits_check, draw_circle_on_frame, draw_rect_on_frame, fill_circle_on_frame, isqrt,
    rect_fits_check, stamp_disc_on_frame, stamp_fits_check,
};
use shp_editor::shp::SHP;

fn canvas(w: u32, h: u32, rows: &[&[u8]]) -> SHP {
    let mut shp = SHP::new(w, h, 1);
    let flat: Vec<u8> = rows.iter().flat_map(|r| r.iter().copied()).collect();
    shp.frames[0].pixels = flat;
    shp
}

fn pixels(shp: &SHP) -> Vec<u8> {
    shp.frames[0].pixels.clone()
}

#[test]
fn get_and_set_one_pixel() {
    let mut shp = SHP::new(3, 2, 1);
    frame_set_pixel(&mut shp, 0, 1, 1, 4);
    assert_eq!(frame_get_pixel(&shp, 0, 1, 1), 4);
    assert_eq!(pixels(&shp), vec![0, 0, 0, 0, 4, 0]);
}

#[test]
fn points_off_the_canvas_read_zero_and_are_not_written() {
    let mut shp = canvas(2, 1, &[&[7, 7]]);
    assert_eq!(frame_get_pixel(&shp, 0, -1, 0), 0);
    assert_eq!(frame_get_pixel(&shp, 0, 2, 0), 0);
    assert_eq!(frame_get_pixel(&shp, 3, 0, 0), 0);
    frame_set_pixel(&mut shp, 0, 0, -1, 1);
    frame_set_pixel(&mut shp, 0, 0, 1, 1);
    frame_set_pixel(&mut shp, 2, 0, 0, 1);
    assert_eq!(pixels(&shp), vec![7, 7]);
}

#[test]
fn line_steps_like_bresenham() {
    let mut shp = SHP::new(4, 2, 1);
    draw_line_on_frame(&mut shp, 0, 0, 0, 3, 1, 9);
    assert_eq!(pixels(&shp), vec![9, 9, 0, 0, 0, 0, 9, 9]);
}

#[test]
fn line_has_both_endpoints_either_way() {
    let mut a = SHP::new(5, 5, 1);
    draw_line_on_frame(&mut a, 0, 4, 0, 0, 3, 2);
    assert_eq!(frame_get_pixel(&a, 0, 4, 0), 2);
    assert_eq!(frame_get_pixel(&a, 0, 0, 3), 2);
}

#[test]
fn single_point_line() {
    let mut shp = SHP::new(2, 2, 1);
    draw_line_on_frame(&mut shp, 0, 1, 1, 1, 1, 3);
    assert_eq!(pixels(&shp), vec![0, 0, 0, 3]);
}

#[test]
fn rectangle_outline() {
    let mut shp = SHP::new(5, 4, 1);
    draw_rect_on_frame(&mut shp, 0, 3, 2, 1, 0, 1);
    assert_eq!(
        pixels(&shp),
        vec![
            0, 1, 1, 1, 0, //
            0, 1, 0, 1, 0, //
            0, 1, 1, 1, 0, //
            0, 0, 0, 0, 0,
        ]
    );
}

#[test]
fn filled_rectangle() {
    let mut shp = SHP::new(4, 3, 1);
    fill_rect_on_frame(&mut shp, 0, 3, 0, 1, 1, 6);
    assert_eq!(pixels(&shp), vec![0, 6, 6, 6, 0, 6, 6, 6, 0, 0, 0, 0]);
}

#[test]
fn filled_rectangle_clipped_to_the_canvas() {
    let mut shp = SHP::new(2, 2, 1);
    fill_rect_on_frame(&mut shp, 0, -5, -5, 0, 0, 6);
    assert_eq!(pixels(&shp), vec![6, 0, 0, 0]);
}

#[test]
fn circle_of_radius_one() {
    let mut shp = SHP::new(5, 5, 1);
    draw_circle_on_frame(&mut shp, 0, 2, 2, 1, 8);
    assert_eq!(
        pixels(&shp),
        vec![
            0, 0, 0, 0, 0, //
            0, 0, 8, 0, 0, //
            0, 8, 0, 8, 0, //
            0, 0, 8, 0, 0, //
            0, 0, 0, 0, 0,
        ]
    );
}

#[test]
fn circle_of_radius_zero_draws_nothing() {
    let mut shp = SHP::new(3, 3, 1);
    draw_circle_on_frame(&mut shp, 0, 1, 1, 0, 8);
    fill_circle_on_frame(&mut shp, 0, 1, 1, -2, 8);
    assert_eq!(pixels(&shp), vec![0u8; 9]);
}

#[test]
fn disc_of_radius_one() {
    let mut shp = SHP::new(5, 5, 1);
    fill_circle_on_frame(&mut shp, 0, 2, 2, 1, 8);
    assert_eq!(
        pixels(&shp),
        vec![
            0, 0, 0, 0, 0, //
            0, 0, 8, 0, 0, //
            0, 8, 8, 8, 0, //
            0, 0, 8, 0, 0, //
            0, 0, 0, 0, 0,
        ]
    );
}

#[test]
fn disc_of_radius_two() {
    let mut shp = SHP::new(5, 5, 1);
    fill_circle_on_frame(&mut shp, 0, 2, 2, 2, 1);
    assert_eq!(
        pixels(&shp),
        vec![
            0, 0, 1, 0, 0, //
            0, 1, 1, 1, 0, //
            1, 1, 1, 1, 1, //
            0, 1, 1, 1, 0, //
            0, 0, 1, 0, 0,
        ]
    );
}

#[test]
fn brush_of_size_one_sets_one_pixel() {
    let mut shp = SHP::new(3, 3, 1);
    stamp_disc_on_frame(&mut shp, 0, 1, 1, 1, 5);
    assert_eq!(pixels(&shp), vec![0, 0, 0, 0, 5, 0, 0, 0, 0]);
    let mut other = SHP::new(3, 3, 1);
    stamp_disc_on_frame(&mut other, 0, 1, 1, 0, 5);
    assert_eq!(pixels(&other), vec![0, 0, 0, 0, 5, 0, 0, 0, 0]);
}

#[test]
fn brush_of_size_two_and_four_is_a_disc_of_radius_one() {
    for size in [2u32, 3, 4] {
        let mut shp = SHP::new(3, 3, 1);
        stamp_disc_on_frame(&mut shp, 0, 1, 1, size, 5);
        assert_eq!(pixels(&shp), vec![0, 5, 0, 5, 5, 5, 0, 5, 0]);
    }
}

#[test]
fn integer_square_root() {
    assert_eq!(isqrt(0), 0);
    assert_eq!(isqrt(15), 3);
    assert_eq!(isqrt(16), 4);
    assert_eq!(isqrt(1 << 62), 1 << 31);
}

#[test]
fn flood_fill_stays_in_its_region() {
    let mut shp = canvas(4, 3, &[&[0, 0, 1, 0], &[0, 1, 0, 0], &[1, 0, 0, 0]]);
    flood_fill_on_frame(&mut shp, 0, 0, 0, 5);
    assert_eq!(pixels(&shp), vec![5, 5, 1, 0, 5, 1, 0, 0, 1, 0, 0, 0]);
}

#[test]
fn flood_fill_reaches_the_whole_region() {
    let mut shp = canvas(4, 3, &[&[0, 0, 1, 0], &[0, 1, 0, 0], &[1, 0, 0, 0]]);
    flood_fill_on_frame(&mut shp, 0, 3, 2, 6);
    assert_eq!(pixels(&shp), vec![0, 0, 1, 6, 0, 1, 6, 6, 1, 6, 6, 6]);
}

#[test]
fn flood_fill_with_the_same_colour_changes_nothing() {
    let mut shp = canvas(2, 2, &[&[3, 3], &[3, 0]]);
    flood_fill_on_frame(&mut shp, 0, 0, 0, 3);
    assert_eq!(pixels(&shp), vec![3, 3, 3, 0]);
}

#[test]
fn flood_fill_from_off_the_canvas_changes_nothing() {
    let mut shp = canvas(2, 2, &[&[0, 0], &[0, 0]]);
    flood_fill_on_frame(&mut shp, 0, -1, 0, 4);
    flood_fill_on_frame(&mut shp, 3, 0, 0, 4);
    assert_eq!(pixels(&shp), vec![0, 0, 0, 0]);
}

#[test]
fn line_arithmetic_range() {
    assert!(line_fits(-5, 0, 5, 3));
    assert!(line_fits(7, 7, 7, 7));
    assert!(!line_fits(i32::MIN, 0, i32::MAX, 0));
    assert!(!line_fits(0, 0, 1 << 30, 0));
    assert!(!line_fits(0, 0, 0, -(1 << 30) - 1));
}

#[test]
fn rectangle_arithmetic_range() {
    assert!(rect_fits_check(3, 2, 1, 0));
    assert!(!rect_fits_check(0, 0, 1 << 30, 1));
}

#[test]
fn circle_and_disc_arithmetic_range() {
    assert!(circle_fits_check(0, 0, 10));
    assert!(circle_fits_check(5, 5, 0));
    assert!(!circle_fits_check(i32::MAX - 1, 0, 5));
    assert!(disc_fits_check(0, 0, i32::MAX));
    assert!(!disc_fits_check(i32::MAX, 0, 1));
    assert!(disc_fits_check(i32::MAX, 0, 0));
    assert!(stamp_fits_check(0, 0, 4));
    assert!(stamp_fits_check(i32::MAX, 0, 1));
    assert!(!stamp_fits_check(i32::MAX, 0, 4));
    assert!(!stamp_fits_check(0, 0, 0x8000_0000));
}

#[test]
fn steep_line_stays_in_its_box() {
    let mut shp = SHP::new(5, 5, 1);
    draw_line_on_frame(&mut shp, 0, 1, 0, 2, 4, 1);
    for (i, v) in pixels(&shp).iter().enumerate() {
        if *v != 0 {
            let x = i % 5;
            assert!(x == 1 || x == 2);
        }
    }
    assert_eq!(frame_get_pixel(&shp, 0, 1, 0), 1);
    assert_eq!(frame_get_pixel(&shp, 0, 2, 4), 1);
}
