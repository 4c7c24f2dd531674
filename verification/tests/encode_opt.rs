use image_js::saveback::{
    encode_rgba8, encode_rgba8_opt, lossless_shape, EncodeJob, LosslessShape, RasterFormat,
};

fn grey_opaque(w: u32, h: u32) -> Vec<u8> {
    (0..w * h)
        .flat_map(|i| {
            let v = (i % 256) as u8;
            [v, v, v, 255]
        })
        .collect()
}

fn grey_with_alpha(w: u32, h: u32) -> Vec<u8> {
    (0..w * h)
        .flat_map(|i| {
            let v = (i % 256) as u8;
            [v, v, v, (i % 251) as u8]
        })
        .collect()
}

fn colourful(w: u32, h: u32) -> Vec<u8> {
    (0..w * h)
        .flat_map(|i| [(i % 256) as u8, (i % 97) as u8, (i % 31) as u8, 255])
        .collect()
}

fn colourful_with_alpha(w: u32, h: u32) -> Vec<u8> {
    (0..w * h)
        .flat_map(|i| [(i % 256) as u8, (i % 97) as u8, (i % 31) as u8, (i % 251) as u8])
        .collect()
}

/// The straight RGBA8 that a reduced job stands for.
fn expand(job: &EncodeJob) -> Vec<u8> {
    match job.shape {
        LosslessShape::Gray => job.bytes.iter().flat_map(|v| [*v, *v, *v, 255]).collect(),
        LosslessShape::GrayA => {
            job.bytes.chunks_exact(2).flat_map(|p| [p[0], p[0], p[0], p[1]]).collect()
        }
        LosslessShape::Rgb => {
            job.bytes.chunks_exact(3).flat_map(|p| [p[0], p[1], p[2], 255]).collect()
        }
        LosslessShape::Rgba => job.bytes.clone(),
    }
}

#[test]
fn the_classifier_names_what_a_buffer_really_is() {
    assert_eq!(lossless_shape(&grey_opaque(16, 16)), LosslessShape::Gray);
    assert_eq!(lossless_shape(&grey_with_alpha(16, 16)), LosslessShape::GrayA);
    assert_eq!(lossless_shape(&colourful(16, 16)), LosslessShape::Rgb);
    assert_eq!(lossless_shape(&colourful_with_alpha(16, 16)), LosslessShape::Rgba);
}

#[test]
fn one_off_grey_pixel_defeats_the_reduction() {
    let mut buf = grey_opaque(32, 32);
    let last = buf.len() - 4;
    buf[last] = 200;
    buf[last + 1] = 10;
    assert_eq!(lossless_shape(&buf), LosslessShape::Rgb);

    let mut both = grey_opaque(32, 32);
    both[3] = 128;
    let n = both.len();
    both[n - 4] = 200;
    both[n - 3] = 10;
    assert_eq!(lossless_shape(&both), LosslessShape::Rgba);
}

#[test]
fn a_reduced_png_decodes_back_bit_for_bit() {
    for (name, buf) in [
        ("grey opaque", grey_opaque(64, 64)),
        ("grey with alpha", grey_with_alpha(64, 64)),
        ("colour opaque", colourful(64, 64)),
        ("colour translucent", colourful_with_alpha(64, 64)),
    ] {
        let job = encode_rgba8_opt(&buf, 64, 64, RasterFormat::Png, 90, true).expect(name);
        assert_eq!(expand(&job), buf, "{name}: the reduction is supposed to be LOSSLESS");
    }
}

#[test]
fn dropping_a_dead_alpha_plane_actually_saves_bytes() {
    let buf = colourful(128, 128);
    let plain = encode_rgba8(&buf, 128, 128, RasterFormat::Png).unwrap();
    let reduced = encode_rgba8_opt(&buf, 128, 128, RasterFormat::Png, 90, true).unwrap();
    assert!(reduced.bytes.len() < plain.bytes.len());
}

#[test]
fn reducing_a_grey_image_actually_saves_bytes() {
    let buf = grey_opaque(128, 128);
    let plain = encode_rgba8(&buf, 128, 128, RasterFormat::Png).unwrap();
    let reduced = encode_rgba8_opt(&buf, 128, 128, RasterFormat::Png, 90, true).unwrap();
    assert!(reduced.bytes.len() < plain.bytes.len());
}

#[test]
fn reduce_off_is_byte_identical_to_the_plain_door() {
    let buf = grey_opaque(32, 32);
    let plain = encode_rgba8(&buf, 32, 32, RasterFormat::Png).unwrap();
    let opt = encode_rgba8_opt(&buf, 32, 32, RasterFormat::Png, 90, false).unwrap();
    assert_eq!(plain.bytes, opt.bytes, "reduce=false must not change the output");
    assert_eq!((plain.shape, plain.quality), (opt.shape, opt.quality));
}

#[test]
fn jpeg_quality_is_honoured_and_the_default_matches_the_plain_door() {
    let buf = colourful(64, 64);
    let low = encode_rgba8_opt(&buf, 64, 64, RasterFormat::Jpeg, 20, false).unwrap();
    let high = encode_rgba8_opt(&buf, 64, 64, RasterFormat::Jpeg, 95, false).unwrap();
    assert_eq!((low.quality, high.quality), (20, 95));
    let plain = encode_rgba8(&buf, 64, 64, RasterFormat::Jpeg).unwrap();
    let ninety = encode_rgba8_opt(&buf, 64, 64, RasterFormat::Jpeg, 90, false).unwrap();
    assert_eq!(plain.quality, ninety.quality, "quality 90 must equal the fixed-quality door");
    assert_eq!(plain.bytes, ninety.bytes);
}

#[test]
fn quality_is_clamped_rather_than_passed_through() {
    let buf = colourful(16, 16);
    assert!(encode_rgba8_opt(&buf, 16, 16, RasterFormat::Jpeg, 0, false).is_ok());
    assert!(encode_rgba8_opt(&buf, 16, 16, RasterFormat::Jpeg, 255, false).is_ok());
    assert_eq!(encode_rgba8_opt(&buf, 16, 16, RasterFormat::Jpeg, 0, false).unwrap().quality, 1);
    assert_eq!(
        encode_rgba8_opt(&buf, 16, 16, RasterFormat::Jpeg, 255, false).unwrap().quality,
        100
    );
}

#[test]
fn a_jpeg_is_never_reduced() {
    let buf = grey_opaque(8, 8);
    let job = encode_rgba8_opt(&buf, 8, 8, RasterFormat::Jpeg, 90, true).unwrap();
    assert_eq!(job.shape, LosslessShape::Rgba);
    assert_eq!(job.bytes, buf);
}
