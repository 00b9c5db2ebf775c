use shp_editor::color_match::{best_index_rgb, dist_rgb2, Rgb};
use shp_editor::palette::{is_pal_extension, Palette, PaletteError};
use shp_editor::palette_groups::{load_embedded_palettes, EmbeddedPalettes};

fn pal_bytes(seed: u8) -> Vec<u8> {
    (0..768usize).map(|i| (i as u8).wrapping_add(seed)).collect()
}

fn file(path: &str, data: Vec<u8>) -> (Vec<u8>, Vec<u8>) {
    (path.as_bytes().to_vec(), data)
}

#[test]
fn grayscale_ramp() {
    let p = Palette::default_grayscale();
    for i in 0..256usize {
        let v = i as u8;
        assert_eq!(p.colors[i], Rgb { r: v, g: v, b: v });
    }
}

#[test]
fn from_bytes_needs_768_bytes() {
    assert_eq!(Palette::from_bytes(&[0u8; 767]).err(), Some(PaletteError::TooShort));
    assert!(Palette::from_bytes(&[0u8; 768]).is_ok());
}

#[test]
fn from_bytes_reads_rgb_triples() {
    let bytes = pal_bytes(0);
    let p = Palette::from_bytes(&bytes).unwrap();
    assert_eq!(p.colors[0], Rgb { r: 0, g: 1, b: 2 });
    assert_eq!(p.colors[1], Rgb { r: 3, g: 4, b: 5 });
    assert_eq!(p.colors[255], Rgb { r: 253, g: 254, b: 255 });
}

#[test]
fn to_bytes_gives_back_the_file_start() {
    let mut bytes = pal_bytes(7);
    bytes.extend_from_slice(&[1, 2, 3]);
    let p = Palette::from_bytes(&bytes).unwrap();
    assert_eq!(p.to_bytes(), bytes[..768].to_vec());
}

#[test]
fn to_bytes_of_grayscale() {
    let out = Palette::default_grayscale().to_bytes();
    assert_eq!(out.len(), 768);
    assert_eq!(&out[..6], &[0, 0, 0, 1, 1, 1]);
    assert_eq!(&out[765..], &[255, 255, 255]);
}

#[test]
fn pal_extension_in_any_case() {
    assert!(is_pal_extension(b"pal"));
    assert!(is_pal_extension(b"PaL"));
    assert!(!is_pal_extension(b"pals"));
    assert!(!is_pal_extension(b"png"));
}

#[test]
fn squared_colour_distance() {
    assert_eq!(dist_rgb2(Rgb::from_rgb(10, 20, 30), Rgb::from_rgb(13, 24, 30)), 25);
    assert_eq!(dist_rgb2(Rgb::from_rgb(0, 0, 0), Rgb::from_rgb(255, 255, 255)), 195075);
}

#[test]
fn nearest_grey() {
    let p = Palette::default_grayscale();
    assert_eq!(best_index_rgb(Rgb::from_rgb(100, 100, 100), &p.colors), 100);
    assert_eq!(best_index_rgb(Rgb::from_rgb(10, 200, 30), &p.colors), 80);
}

#[test]
fn exact_colour_maps_to_its_first_occurrence() {
    let mut colors = [Rgb::from_rgb(0, 0, 0); 256];
    colors[3] = Rgb::from_rgb(9, 9, 9);
    colors[200] = Rgb::from_rgb(9, 9, 9);
    assert_eq!(best_index_rgb(Rgb::from_rgb(9, 9, 9), &colors), 3);
    assert_eq!(best_index_rgb(Rgb::from_rgb(1, 1, 1), &colors), 0);
}

#[test]
fn palettes_grouped_by_folder_in_byte_order() {
    let files = vec![
        file("RA2/unittem.pal", pal_bytes(1)),
        file("TS/a.PAL", pal_bytes(2)),
        file("RA2/b.pal", pal_bytes(3)),
        file("readme.txt", pal_bytes(4)),
        file("RA2/short.pal", vec![0u8; 10]),
        file("top.pal", pal_bytes(5)),
    ];
    let groups = EmbeddedPalettes::grouped_by_folder(&files);
    let folders: Vec<&[u8]> = groups.iter().map(|g| g.0.as_slice()).collect();
    assert_eq!(folders, vec![&b""[..], &b"RA2"[..], &b"TS"[..]]);
    let names = |i: usize| -> Vec<Vec<u8>> { groups[i].1.iter().map(|e| e.0.clone()).collect() };
    assert_eq!(names(0), vec![b"top".to_vec()]);
    assert_eq!(names(1), vec![b"unittem".to_vec(), b"b".to_vec()]);
    assert_eq!(names(2), vec![b"a".to_vec()]);
    assert_eq!(groups[1].1[1].1.to_bytes(), pal_bytes(3));
    assert_eq!(groups[2].1[0].1.to_bytes(), pal_bytes(2));
}

#[test]
fn nested_folders_and_dotted_names() {
    let files = vec![
        file("a/b/c.d.pal", pal_bytes(0)),
        file("x/.pal", pal_bytes(0)),
    ];
    let groups = EmbeddedPalettes::grouped_by_folder(&files);
    assert_eq!(groups.len(), 2);
    assert_eq!(groups[0].0, b"a/b".to_vec());
    assert_eq!(groups[0].1[0].0, b"c.d".to_vec());
    assert_eq!(groups[1].0, b"x".to_vec());
    assert_eq!(groups[1].1[0].0, b".pal".to_vec());
}

#[test]
fn embedded_list_is_the_groups_flattened() {
    let files = vec![
        file("B/two.pal", pal_bytes(2)),
        file("A/one.pal", pal_bytes(1)),
        file("B/three.pal", pal_bytes(3)),
    ];
    let (groups, flat) = load_embedded_palettes(&files);
    assert_eq!(groups.len(), 2);
    let names: Vec<Vec<u8>> = flat.iter().map(|e| e.0.clone()).collect();
    assert_eq!(names, vec![b"one".to_vec(), b"two".to_vec(), b"three".to_vec()]);
    assert_eq!(flat[0].1.to_bytes(), pal_bytes(1));
}

#[test]
fn without_palettes_the_list_holds_grayscale() {
    let files = vec![file("notes.txt", vec![1, 2, 3])];
    let (groups, flat) = load_embedded_palettes(&files);
    assert!(groups.is_empty());
    assert_eq!(flat.len(), 1);
    assert_eq!(flat[0].0, b"Grayscale".to_vec());
    assert_eq!(flat[0].1.colors[42], Rgb { r: 42, g: 42, b: 42 });
}
