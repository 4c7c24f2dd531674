use image_js::mip::{downsample_2x, MipPyramid};

fn solid(w: u32, h: u32, rgba: [u8; 4]) -> Vec<u8> {
    let mut v = vec![0u8; (w * h * 4) as usize];
    for px in v.chunks_exact_mut(4) {
        px.copy_from_slice(&rgba);
    }
    v
}

#[test]
fn image_editor_tiles_level1_window_of_solid_is_preserved() {
    let color = [200u8, 100, 50, 255];
    let pyr = MipPyramid::build(8, 8, &solid(8, 8, color), 3);
    assert_eq!(pyr.level_dims(0), Some((8, 8)));
    assert_eq!(pyr.level_dims(1), Some((4, 4)), "level 1 halves to 4x4");

    let (bytes, w, h) = pyr.window_rgba8(1, 0, 0, 4, 4);
    assert_eq!((w, h), (4, 4));
    assert_eq!(bytes.len(), 4 * 4 * 4);
    for px in bytes.chunks_exact(4) {
        assert_eq!(px, color, "solid colour preserved through level 1");
    }
}

#[test]
fn image_editor_tiles_level2_window_clips_and_preserves() {
    let color = [10u8, 20, 30, 255];
    let pyr = MipPyramid::build(8, 8, &solid(8, 8, color), 4);
    assert_eq!(pyr.level_dims(2), Some((2, 2)));
    let (bytes, w, h) = pyr.window_rgba8(2, 0, 0, 4, 4);
    assert_eq!((w, h), (2, 2), "level-2 extent is 2x2");
    for px in bytes.chunks_exact(4) {
        assert_eq!(px, color);
    }
}

#[test]
fn image_editor_tiles_level_window_outside_is_empty() {
    let pyr = MipPyramid::build(8, 8, &solid(8, 8, [1, 2, 3, 4]), 2);
    let (bytes, w, h) = pyr.window_rgba8(1, 100, 100, 4, 4);
    assert!(bytes.is_empty());
    assert_eq!((w, h), (0, 0));
}

#[test]
fn image_editor_tiles_level_above_top_is_empty() {
    let pyr = MipPyramid::build(4, 4, &solid(4, 4, [9, 9, 9, 255]), 1);
    assert_eq!(pyr.max_level(), 1);
    let (bytes, _w, _h) = pyr.window_rgba8(5, 0, 0, 2, 2);
    assert!(bytes.is_empty(), "level 5 was never built");
}

#[test]
fn image_editor_tiles_box_filter_blends_a_boundary() {
    let img = vec![0u8, 0, 0, 255, 255, 0, 0, 255];
    let pyr = MipPyramid::build(2, 1, &img, 1);
    let (bytes, w, h) = pyr.window_rgba8(1, 0, 0, 1, 1);
    assert_eq!((w, h), (1, 1));
    assert_eq!(bytes[0], 127, "boundary column averaged");
    assert_eq!(bytes[3], 255, "alpha preserved");
}

#[test]
fn an_odd_extent_keeps_its_last_column() {
    let mut img = solid(3, 1, [0, 0, 0, 255]);
    img[8] = 90;
    let (w, h, next) = downsample_2x(3, 1, &img);
    assert_eq!((w, h), (2, 1));
    assert_eq!((next[0], next[4]), (0, 90));
}
