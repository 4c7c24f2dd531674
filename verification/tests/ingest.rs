use image_js::adjust::{adjust_rgba8, AdjustParams, ADJUST_EXT_LEN};
use image_js::cmyk::InkOutcome;
use image_js::coverage::SelectionCoverage;
use image_js::display::{DisplayTreatment, ProfileOutcome};
use image_js::errors::IngestError;
use image_js::ingest::{
    apply_curve_lut, apply_curve_lut_masked, crop_rgba8, straighten_crop_rgba8, straighten_path,
    DecodedImage, StraightenPath,
};
use image_js::orientation::{apply_orientation, Orientation};
use image_js::pixels::{Pixels, SampleDepth};
use image_js::scalar::Scalar;
use image_js::source::{
    admit_source, decoder_for, finish_source, sniff, upright_source, ChannelLayout, Format,
    SourceInfo,
};

fn s(v: f32) -> Scalar {
    Scalar { bits: v.to_bits() }
}

fn radius(_sigma: Scalar) -> u32 {
    5
}

fn grid(w: u32, h: u32) -> Vec<u8> {
    let mut v = vec![0u8; (w * h * 4) as usize];
    for y in 0..h {
        for x in 0..w {
            let i = ((y * w + x) * 4) as usize;
            v[i] = x as u8;
            v[i + 1] = y as u8;
            v[i + 2] = 0;
            v[i + 3] = 255;
        }
    }
    v
}

fn at(buf: &[u8], dw: u32, dx: u32, dy: u32) -> (u8, u8) {
    let i = ((dy * dw + dx) * 4) as usize;
    (buf[i], buf[i + 1])
}

fn invert_lut() -> [u8; 256] {
    std::array::from_fn(|k| 255 - k as u8)
}

fn test_pixels(w: u32, h: u32) -> Vec<u8> {
    let mut px = vec![0u8; (w * h * 4) as usize];
    for y in 0..h {
        for x in 0..w {
            let i = ((y * w + x) * 4) as usize;
            px[i] = (x * 30) as u8;
            px[i + 1] = (y * 40) as u8;
            px[i + 2] = (x * 10 + y * 5) as u8;
            px[i + 3] = 200;
        }
    }
    px
}

/// The ingest of a codec's full-frame 8-bit read.
fn opened(
    w: u32,
    h: u32,
    channels: ChannelLayout,
    orientation: Option<Orientation>,
    buf: Vec<u8>,
) -> DecodedImage {
    let info = SourceInfo { width: w, height: h, channels, depth: SampleDepth::U8, orientation };
    assert_eq!(admit_source(&info).expect("admitted"), buf.len() as u128);
    let source = upright_source(&info, buf, InkOutcome::Absent).expect("upright");
    finish_source(source, ProfileOutcome::Absent)
}

#[test]
fn orientation_identity_is_untouched() {
    let src = grid(3, 2);
    let (out, w, h) = apply_orientation(src.clone(), 3, 2, Orientation::TopLeft);
    assert_eq!((w, h), (3, 2));
    assert_eq!(out, src);
}

#[test]
fn orientation_mirror_horizontal() {
    let (out, w, h) = apply_orientation(grid(3, 2), 3, 2, Orientation::TopRight);
    assert_eq!((w, h), (3, 2));
    assert_eq!(at(&out, w, 0, 0), (2, 0));
    assert_eq!(at(&out, w, 2, 1), (0, 1));
}

#[test]
fn orientation_rotate_180() {
    let (out, w, h) = apply_orientation(grid(3, 2), 3, 2, Orientation::BottomRight);
    assert_eq!((w, h), (3, 2));
    assert_eq!(at(&out, w, 0, 0), (2, 1));
}

#[test]
fn orientation_rotate_90_cw_swaps_dims() {
    let (out, w, h) = apply_orientation(grid(3, 2), 3, 2, Orientation::RightTop);
    assert_eq!((w, h), (2, 3), "90° CW swaps to 2×3");
    assert_eq!(at(&out, w, 1, 0), (0, 0));
    assert_eq!(at(&out, w, 0, 0), (0, 1));
}

#[test]
fn orientation_rotate_270_cw_swaps_dims() {
    let (out, w, h) = apply_orientation(grid(3, 2), 3, 2, Orientation::LeftBottom);
    assert_eq!((w, h), (2, 3));
    assert_eq!(at(&out, w, 0, 2), (0, 0));
}

#[test]
fn orientation_transpose_and_transverse_swap_dims() {
    for o in [Orientation::LeftTop, Orientation::RightBottom] {
        let (out, w, h) = apply_orientation(grid(3, 2), 3, 2, o);
        assert_eq!((w, h), (2, 3), "transpose/transverse swap dims for {o:?}");
        assert_eq!(out.len(), (w * h * 4) as usize);
    }
}

#[test]
fn a_turn_and_its_inverse_restore_the_image() {
    let src = grid(5, 3);
    for (o, back) in [
        (Orientation::TopLeft, Orientation::TopLeft),
        (Orientation::TopRight, Orientation::TopRight),
        (Orientation::BottomRight, Orientation::BottomRight),
        (Orientation::BottomLeft, Orientation::BottomLeft),
        (Orientation::LeftTop, Orientation::LeftTop),
        (Orientation::RightTop, Orientation::LeftBottom),
        (Orientation::RightBottom, Orientation::RightBottom),
        (Orientation::LeftBottom, Orientation::RightTop),
    ] {
        let (turned, w, h) = apply_orientation(src.clone(), 5, 3, o);
        let (again, w2, h2) = apply_orientation(turned, w, h, back);
        assert_eq!((w2, h2), (5, 3));
        assert_eq!(again, src, "{o:?}");
    }
}

#[test]
fn image_editor_ingest_from_rgba8_registers_pre_decoded_pixels() {
    let pixels = grid(2, 1);
    let img = DecodedImage::from_rgba8(2, 1, pixels.clone()).expect("valid rgba8");
    assert_eq!((img.width, img.height), (2, 1));
    let (out, w, h) = img.tile_window_rgba8(0, 0, 2, 1);
    assert_eq!((w, h), (2, 1));
    assert_eq!(out, pixels);
}

#[test]
fn image_editor_ingest_from_rgba8_rejects_a_length_mismatch() {
    let err = DecodedImage::from_rgba8(2, 1, vec![0u8; 6]).err().expect("refused");
    assert!(matches!(err, IngestError::Decode(_)), "got {err:?}");
}

#[test]
fn image_editor_crop_rgba8_cuts_the_rectangle() {
    let img = DecodedImage::from_rgba8(3, 2, grid(3, 2)).expect("valid");
    let cropped = crop_rgba8(&img, 1, 0, 2, 1).expect("non-empty crop");
    assert_eq!((cropped.width, cropped.height), (2, 1));
    let rgba = cropped.rgba.raw();
    assert_eq!((rgba[0], rgba[1]), (1, 0));
    assert_eq!((rgba[4], rgba[5]), (2, 0));
}

#[test]
fn image_editor_crop_rgba8_clamps_to_extent() {
    let img = DecodedImage::from_rgba8(3, 2, grid(3, 2)).expect("valid");
    let cropped = crop_rgba8(&img, 2, 1, 5, 5).expect("clipped, non-empty");
    assert_eq!((cropped.width, cropped.height), (1, 1));
}

#[test]
fn image_editor_crop_rgba8_empty_is_error() {
    let img = DecodedImage::from_rgba8(3, 2, grid(3, 2)).expect("valid");
    assert!(crop_rgba8(&img, 10, 10, 4, 4).is_err());
    assert!(crop_rgba8(&img, 0, 0, 0, 0).is_err());
}

#[test]
fn image_editor_curves_apply_lut_remaps_rgb_keeps_alpha() {
    let mut px = vec![10u8, 20, 30, 128];
    apply_curve_lut(&mut px, &invert_lut());
    assert_eq!(px, vec![245, 235, 225, 128], "RGB inverted, alpha kept");
}

#[test]
fn image_selection_curves_lut_masked_changes_only_selected_pixels() {
    let mut px = vec![10u8, 20, 30, 128, 40, 50, 60, 255];
    let cov = SelectionCoverage::from_data(2, 1, vec![255, 0]).expect("2 px");
    apply_curve_lut_masked(&mut px, &invert_lut(), &cov);
    assert_eq!(&px[0..4], &[245, 235, 225, 128], "selected pixel remapped");
    assert_eq!(&px[4..8], &[40, 50, 60, 255], "deselected pixel untouched");
}

#[test]
fn image_selection_curves_lut_masked_blends_at_half_coverage() {
    let mut px = vec![0u8, 0, 0, 255];
    let cov = SelectionCoverage::from_data(1, 1, vec![128]).expect("1 px");
    apply_curve_lut_masked(&mut px, &invert_lut(), &cov);
    assert_eq!(&px[0..3], &[128, 128, 128]);
    assert_eq!(px[3], 255, "alpha never remapped");
}

#[test]
fn image_selection_curves_lut_masked_size_mismatch_falls_back_unmasked() {
    let mut px = vec![10u8, 20, 30, 128];
    let cov = SelectionCoverage::from_data(3, 3, vec![0; 9]).expect("9 px");
    apply_curve_lut_masked(&mut px, &invert_lut(), &cov);
    assert_eq!(px, vec![245, 235, 225, 128], "defensive unmasked fallback");
}

#[test]
fn image_editor_curves_identity_lut_is_passthrough() {
    let mut px = vec![10u8, 20, 30, 200, 40, 50, 60, 255];
    let before = px.clone();
    let lut: [u8; 256] = std::array::from_fn(|k| k as u8);
    apply_curve_lut(&mut px, &lut);
    assert_eq!(px, before, "identity LUT changes nothing");
}

#[test]
fn image_editor_ingest_curve_only_runs_on_cpu_without_gpu() {
    let img = DecodedImage::from_rgba8(2, 1, grid(2, 1)).expect("valid");
    let params = AdjustParams { curve_lut: Some(invert_lut()), ..Default::default() };
    assert!(!params.has_gpu_stage(), "curve-only has no GPU stage");
    let view = img.rgba.to_rgba8();
    let pixels = adjust_rgba8(view.as_slice(), &params, Vec::new(), None);
    assert_eq!(&pixels[0..4], &[255, 255, 255, 255]);
}

#[test]
fn image_editor_ingest_decode_png_roundtrip() {
    let (w, h) = (8u32, 6u32);
    let pixels = test_pixels(w, h);
    let img = opened(w, h, ChannelLayout::Rgba, None, pixels.clone());
    assert_eq!((img.width, img.height), (w, h));
    assert_eq!(img.rgba.raw(), &pixels[..], "PNG is lossless");
}

#[test]
fn image_editor_resource_tile_window_cuts_and_clamps() {
    let (w, h) = (8u32, 6u32);
    let pixels = test_pixels(w, h);
    let img = DecodedImage {
        width: w,
        height: h,
        rgba: Pixels::from_vec(pixels.clone()),
        display: DisplayTreatment::AssumedSrgb,
        depth_reduced: false,
    };
    let (bytes, tw, th) = img.tile_window_rgba8(2, 1, 4, 3);
    assert_eq!((tw, th), (4, 3));
    assert_eq!(bytes.len(), (4 * 3 * 4) as usize);
    for row in 0..3u32 {
        for col in 0..4u32 {
            let src = (((row + 1) * w + (col + 2)) * 4) as usize;
            let dst = ((row * 4 + col) * 4) as usize;
            assert_eq!(&bytes[dst..dst + 4], &pixels[src..src + 4], "tile pixel");
        }
    }
    let (_edge, etw, eth) = img.tile_window_rgba8(6, 4, 4, 4);
    assert_eq!((etw, eth), (2, 2));
    let (out, ow, oh) = img.tile_window_rgba8(100, 100, 4, 4);
    assert!(out.is_empty());
    assert_eq!((ow, oh), (0, 0));
}

#[test]
fn image_editor_ingest_jpeg_no_exif_keeps_dims() {
    let (w, h) = (16u32, 8u32);
    let img = opened(w, h, ChannelLayout::Rgba, None, test_pixels(w, h));
    assert_eq!((img.width, img.height), (w, h));
}

#[test]
fn image_editor_ingest_jpeg_exif_orientation_6_auto_rotates() {
    let (w, h) = (16u32, 8u32);
    let img =
        opened(w, h, ChannelLayout::Rgba, Some(Orientation::RightTop), test_pixels(w, h));
    assert_eq!(
        (img.width, img.height),
        (h, w),
        "Orientation=6 must swap dimensions to {h}×{w}"
    );
    assert_eq!(img.rgba.len(), (w * h * 4) as usize, "pixel count preserved");
}

#[test]
fn image_editor_ingest_jpeg_exif_orientation_1_is_identity() {
    let (w, h) = (16u32, 8u32);
    let img = opened(w, h, ChannelLayout::Rgba, Some(Orientation::TopLeft), test_pixels(w, h));
    assert_eq!((img.width, img.height), (w, h));
}

#[test]
fn image_editor_ingest_decode_psd_composite() {
    let img = DecodedImage::from_psd_composite(
        2,
        1,
        vec![10, 30, 50, 255, 20, 40, 60, 255],
        false,
    );
    assert_eq!((img.width, img.height), (2, 1));
    assert_eq!(img.rgba.raw(), &[10, 30, 50, 255, 20, 40, 60, 255]);
}

#[test]
fn image_editor_ingest_rejects_unknown_container() {
    assert!(matches!(decoder_for(b"not an image"), Err(IngestError::Unsupported(_))));
}

#[test]
fn containers_are_told_by_their_magic() {
    assert_eq!(sniff(b"8BPS\x00\x01"), Some(Format::Psd));
    assert_eq!(sniff(&[0x89, 0x50, 0x4e, 0x47, 0x0d]), Some(Format::Png));
    assert_eq!(sniff(&[0xff, 0xd8, 0xff, 0xe1]), Some(Format::Jpeg));
    assert_eq!(sniff(&[0xff, 0xd8]), None);
    assert_eq!(sniff(b""), None);
}

#[test]
fn image_editor_ingest_adjust_identity_needs_no_gpu() {
    let img = DecodedImage::from_psd_composite(
        2,
        1,
        vec![10, 30, 50, 255, 20, 40, 60, 255],
        false,
    );
    let params = AdjustParams::default();
    assert!(params.is_identity());
    assert!(params.plan(&radius).is_empty());
    let view = img.rgba.to_rgba8();
    let out = adjust_rgba8(view.as_slice(), &params, Vec::new(), None);
    assert_eq!(&out[..], img.rgba.raw());
}

#[test]
fn image_editor_ingest_cmyk_jpeg_decodes_instead_of_rejecting() {
    let (w, h) = (2u32, 1u32);
    let cmyk = vec![0u8, 0, 0, 0, /* white */ 0, 0, 0, 255 /* full K */];
    let img = opened(w, h, ChannelLayout::Cmyk, None, cmyk);
    assert_eq!((img.width, img.height), (w, h));
    assert_eq!(img.rgba.len(), (w * h * 4) as usize);
    let white = &img.rgba.raw()[0..4];
    let black = &img.rgba.raw()[4..8];
    assert!(white[0] > 230 && white[1] > 230 && white[2] > 230, "got {white:?}");
    assert!(black[0] < 25 && black[1] < 25 && black[2] < 25, "got {black:?}");
    assert_eq!(white[3], 255, "alpha synthesised opaque");
    assert_eq!(black[3], 255, "alpha synthesised opaque");
}

#[test]
fn grey_sources_spread_and_five_channels_are_refused() {
    let grey = opened(2, 1, ChannelLayout::Gray, None, vec![7, 9]);
    assert_eq!(grey.rgba.raw(), &[7, 7, 7, 255, 9, 9, 9, 255]);
    let grey_a = opened(1, 1, ChannelLayout::GrayA, None, vec![7, 128]);
    assert_eq!(grey_a.rgba.raw(), &[7, 7, 7, 128]);
    for (channels, depth) in [
        (ChannelLayout::Cmyka, SampleDepth::U8),
        (ChannelLayout::Cmyk, SampleDepth::U16),
        (ChannelLayout::Rgba, SampleDepth::Other),
    ] {
        let info = SourceInfo { width: 1, height: 1, channels, depth, orientation: None };
        let err = admit_source(&info).err().expect("refused");
        assert!(matches!(err, IngestError::Unsupported(_)), "got {err:?}");
    }
}

#[test]
fn image_editor_adjust_extended_block_decodes_onto_the_params() {
    let mut p = AdjustParams::default();
    assert!(p.is_identity());
    p.apply_extended(&[]).expect("empty ext is identity");
    assert!(p.is_identity(), "an EMPTY block leaves every stage neutral");

    let mut ext = vec![s(0.0); ADJUST_EXT_LEN];
    ext[26] = s(1.0); // channel mixer r.r
    ext[31] = s(1.0); // g.g
    ext[36] = s(1.0); // b.b
    for c in 0..3 {
        ext[38 + c * 3 + 1] = s(1.0); // levels_rgb in_white
        ext[38 + c * 3 + 2] = s(1.0); // levels_rgb gamma
    }
    let mut q = AdjustParams::default();
    q.apply_extended(&ext).expect("neutral ext");
    assert!(q.is_identity(), "the neutral block is still identity");

    ext[0] = s(0.5); // vibrance
    ext[1] = s(0.1); // color balance shadows cyan-red
    ext[10] = s(1.0); // black & white enabled
    ext[17] = s(1.0); // posterize enabled
    ext[18] = s(4.0); // posterize levels
    ext[19] = s(1.0); // threshold enabled
    ext[20] = s(0.5); // threshold value
    ext[21] = s(0.25); // photo filter density
    let mut r = AdjustParams::default();
    r.apply_extended(&ext).expect("populated ext");
    assert_eq!(r.vibrance, s(0.5));
    assert_eq!(r.color_balance.shadows[0], s(0.1));
    assert!(r.black_white.enabled);
    assert_eq!(r.posterize, Some(s(4.0)));
    assert_eq!(r.threshold, Some(s(0.5)));
    assert_eq!(r.photo_filter.density, s(0.25));
    assert!(!r.is_identity());
}

#[test]
fn image_editor_adjust_extended_block_rejects_a_wrong_length() {
    let mut p = AdjustParams::default();
    assert!(p.apply_extended(&[s(1.0), s(2.0)]).is_err());
}

#[test]
fn image_editor_crop_straighten_at_zero_degrees_needs_no_gpu_and_never_resamples() {
    let img = DecodedImage::from_rgba8(4, 2, (0..32u8).collect::<Vec<u8>>()).expect("valid");
    let cut = crop_rgba8(&img, 1, 0, 2, 2).expect("crop");
    assert_eq!(straighten_path(s(0.0)), StraightenPath::Cut);
    assert_eq!(straighten_path(s(-0.0)), StraightenPath::Cut);
    assert_eq!(straighten_path(s(180.0)), StraightenPath::Rotate);
    let straight = straighten_crop_rgba8(&img, img.rgba.raw().to_vec(), 1, 0, 2, 2)
        .expect("0° straighten");
    assert_eq!(straight.rgba.raw(), cut.rgba.raw(), "0° is the exact cut");
}

#[test]
fn the_device_result_is_taken_only_where_a_stage_ran() {
    let image = [10u8, 20, 30, 255];
    let ran = vec![1u8, 2, 3, 255];
    let mut params = AdjustParams::default();
    assert_eq!(adjust_rgba8(&image, &params, ran.clone(), None), image.to_vec());
    params.exposure_ev = s(1.0);
    assert_eq!(params.plan(&radius).len(), 1);
    assert_eq!(adjust_rgba8(&image, &params, ran.clone(), None), ran);
}
