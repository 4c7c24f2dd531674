use image_js::blend::{blend_kernel, blend_names, BlendMode};
use image_js::bridge::rgba8_to_f16;
use image_js::coverage::{Region, SelectionCoverage};
use image_js::ingest::DecodedImage;
use image_js::scalar::Scalar;
use image_js::stroke::{
    crop_field, CloneSource, PaintMode, PressureTarget, SampleAction, StrokePaint, StrokeParams,
    StrokeSample, StrokeSession, StrokeTool, MIN_SIZE_PX, MIN_SPACING_FRACTION,
};
use std::sync::Arc;

fn s(v: f32) -> Scalar {
    Scalar { bits: v.to_bits() }
}

fn img(w: u32, h: u32) -> DecodedImage {
    DecodedImage::from_rgba8(w, h, vec![128u8; (w * h * 4) as usize]).expect("valid")
}

fn params(tool: StrokeTool) -> StrokeParams {
    StrokeParams::defaults(tool)
}

fn begin(image: &DecodedImage, tool: StrokeTool) -> StrokeSession {
    StrokeSession::begin(1, image, params(tool), None).expect("begin")
}

fn sample(x: f32, y: f32) -> StrokeSample {
    StrokeSample { x: s(x), y: s(y), pressure: s(1.0) }
}

const TOOLS: [StrokeTool; 5] = [
    StrokeTool::Brush,
    StrokeTool::Pencil,
    StrokeTool::Eraser,
    StrokeTool::Clone,
    StrokeTool::Heal,
];

#[test]
fn image_editor_paint_tool_round_trips_its_wire_name() {
    for t in TOOLS {
        assert_eq!(StrokeTool::from_wire(t.as_wire()), Some(t));
    }
    assert_eq!(StrokeTool::from_wire("airbrush"), None);
}

#[test]
fn image_editor_paint_only_the_pencil_is_aliased() {
    assert!(StrokeTool::Brush.antialias());
    assert!(StrokeTool::Eraser.antialias());
    assert!(!StrokeTool::Pencil.antialias());
}

#[test]
fn image_editor_paint_every_registered_blend_mode_is_reachable() {
    let names = blend_names();
    assert_eq!(names.len(), 26, "the compose family is 26 kernels");
    for n in &names {
        let k = blend_kernel(n).unwrap_or_else(|| panic!("`{n}` should resolve"));
        assert_eq!(k.name(), *n);
    }
    assert_eq!(blend_kernel("compose.multiply"), Some(BlendMode::Multiply));
    assert!(blend_kernel("dissolve").is_none());
    assert!(blend_kernel("").is_none());
}

#[test]
fn image_editor_paint_defaults_are_the_documented_v0() {
    let p = params(StrokeTool::Brush);
    assert_eq!(p.size, s(24.0));
    assert_eq!(p.hardness, s(0.5));
    assert_eq!(p.opacity, s(1.0));
    assert_eq!(p.flow, s(1.0));
    assert_eq!(p.spacing, s(0.25));
    assert_eq!(p.blend, BlendMode::Normal);
    assert_eq!(p.color, [s(0.0), s(0.0), s(0.0), s(1.0)]);
    assert_eq!(p.pressure, PressureTarget::Both);
    assert_eq!(p.step_px(&product), s(6.0), "a dab every quarter diameter");
}

#[test]
fn image_editor_paint_sanitize_clamps_every_range() {
    let mut p = params(StrokeTool::Brush);
    p.size = s(-5.0);
    p.hardness = s(3.0);
    p.opacity = s(9.0);
    p.flow = s(-1.0);
    p.spacing = s(0.0);
    p.color = [s(2.0), s(-1.0), s(0.5), s(7.0)];
    let c = p.sanitized();
    assert_eq!(c.size.bits, MIN_SIZE_PX);
    assert_eq!(c.hardness, s(1.0));
    assert_eq!(c.opacity, s(1.0));
    assert_eq!(c.flow, s(0.0));
    assert_eq!(c.spacing.bits, MIN_SPACING_FRACTION);
    assert_eq!(c.color, [s(1.0), s(0.0), s(0.5), s(1.0)]);
    assert_eq!(f32::from_bits(MIN_SPACING_FRACTION), 0.01);
    assert_eq!(f32::from_bits(MIN_SIZE_PX), 0.5);
}

#[test]
fn sanitizing_twice_is_sanitizing_once() {
    let mut p = params(StrokeTool::Pencil);
    p.size = s(5000.0);
    p.spacing = s(9.0);
    p.flow = s(0.25);
    let (once, twice) = (p.sanitized(), p.sanitized().sanitized());
    assert_eq!(format!("{once:?}"), format!("{twice:?}"));
    assert_eq!(p.sanitized().size, s(2048.0));
    assert_eq!(p.sanitized().spacing, s(4.0));
}

#[test]
fn image_editor_paint_the_pencil_always_deposits_at_full_flow() {
    let mut p = params(StrokeTool::Pencil);
    p.flow = s(0.1);
    assert_eq!(p.sanitized().flow, s(1.0), "a partial-flow pencil is not a pencil");
    let mut p = params(StrokeTool::Pencil);
    p.opacity = s(0.3);
    assert_eq!(p.sanitized().opacity, s(0.3));
}

/// Anchor minus pointer, in whole pixels.
fn offset(anchor: Scalar, at: Scalar) -> i64 {
    (f32::from_bits(anchor.bits) - f32::from_bits(at.bits)).round() as i64
}

/// What a pressure leaves of what it drives: the pressure itself.
fn share(pressure: Scalar) -> Scalar {
    pressure
}

fn product(a: Scalar, b: Scalar) -> Scalar {
    s(f32::from_bits(a.bits) * f32::from_bits(b.bits))
}

#[test]
fn image_editor_paint_pressure_maps_to_size_and_flow_by_default() {
    let tip = |p: &StrokeParams, pr: f32| p.tip_at(s(pr), &share, &product).diameter;
    let flow = |p: &StrokeParams, pr: f32| p.flow_at(s(pr), &share, &product);
    let p = params(StrokeTool::Brush);
    assert_eq!(tip(&p, 1.0), s(24.0));
    assert_eq!(tip(&p, 0.5), s(12.0));
    assert_eq!(flow(&p, 0.5), s(0.5));

    let mut size_only = p;
    size_only.pressure = PressureTarget::Size;
    assert_eq!(tip(&size_only, 0.5), s(12.0));
    assert_eq!(flow(&size_only, 0.5), s(1.0));

    let mut none = p;
    none.pressure = PressureTarget::Off;
    assert_eq!(tip(&none, 0.5), s(24.0));
    assert_eq!(flow(&none, 0.5), s(1.0));
    let negative = p.tip_at(s(-1.0), &share, &product);
    assert_eq!((negative.diameter, negative.hardness), (s(0.0), s(0.5)));
    assert!(negative.antialias && !params(StrokeTool::Pencil).tip_at(s(1.0), &share, &product).antialias);
}

#[test]
fn a_pressure_drives_what_its_target_says() {
    let at = s(0.25);
    for (target, size, flow) in [
        (PressureTarget::Off, 1.0, 1.0),
        (PressureTarget::Size, 0.25, 1.0),
        (PressureTarget::Opacity, 1.0, 0.25),
        (PressureTarget::Both, 0.25, 0.25),
    ] {
        let scales = (target.size_scale(at, &share), target.flow_scale(at, &share));
        assert_eq!(scales, (s(size), s(flow)));
    }
    let squared = |p: Scalar| product(p, p);
    assert_eq!(PressureTarget::Both.size_scale(at, &squared), s(0.0625), "through the curve");
    assert_eq!(PressureTarget::Opacity.size_scale(at, &squared), s(1.0));
}

#[test]
fn image_editor_paint_spacing_does_not_shrink_with_pressure() {
    let p = params(StrokeTool::Brush);
    assert_eq!(p.step_px(&product), s(6.0), "a dab every quarter diameter");
    assert_eq!(p.tip_at(s(0.25), &share, &product).diameter, s(6.0));
    assert_eq!(p.step_px(&product), s(6.0), "unchanged by the pressure-scaled tip");
}

#[test]
fn image_editor_paint_mode_picks_erase_for_the_eraser_only() {
    assert!(matches!(
        params(StrokeTool::Eraser).solid_paint_mode().unwrap(),
        PaintMode::Erase
    ));
    for tool in [StrokeTool::Brush, StrokeTool::Pencil] {
        match params(tool).solid_paint_mode().unwrap() {
            PaintMode::Paint { blend, color } => {
                assert_eq!(blend, BlendMode::Normal);
                assert_eq!(color, [s(0.0), s(0.0), s(0.0), s(1.0)]);
            }
            PaintMode::Erase => panic!("{tool:?} paints"),
        }
    }
}

#[test]
fn image_editor_paint_begin_rejects_an_empty_image() {
    let empty = DecodedImage::from_rgba8(0, 0, Vec::new());
    if let Ok(e) = empty {
        assert!(StrokeSession::begin(1, &e, params(StrokeTool::Brush), None).is_err());
    }
    let none = Arc::new(Vec::new());
    assert!(StrokeSession::begin_on(1, 0, 4, none, params(StrokeTool::Brush), None).is_err());
}

#[test]
fn image_editor_paint_begin_on_takes_layer_pixels_and_checks_their_extent() {
    let pixels = Arc::new(vec![7u8; 16 * 16 * 4]);
    let st = StrokeSession::begin_on(
        3,
        16,
        16,
        Arc::clone(&pixels),
        params(StrokeTool::Brush),
        None,
    )
    .expect("well-sized");
    assert_eq!(st.pixels(), &pixels[..]);
    assert!(StrokeSession::begin_on(
        3,
        16,
        16,
        Arc::new(vec![0u8; 4]),
        params(StrokeTool::Brush),
        None
    )
    .is_err());
}

#[test]
fn image_editor_paint_a_fresh_session_is_empty_and_mirrors_the_base() {
    let image = img(16, 16);
    let st = StrokeSession::begin(7, &image, params(StrokeTool::Brush), None).expect("begin");
    assert_eq!(st.handle(), 7);
    assert_eq!((st.width(), st.height()), (16, 16));
    assert_eq!(st.pixels(), image.rgba.raw(), "untouched until a dab lands");
    assert!(st.clone_source().is_none() && st.selection().is_none());
    assert_eq!(st.params().tool, StrokeTool::Brush);
    assert_eq!(st.params().size, s(24.0));
}

#[test]
fn image_editor_paint_the_first_sample_stamps_one_dab_at_the_pointer() {
    let image = img(32, 32);
    let mut st = begin(&image, StrokeTool::Brush);
    let first = st.extend(sample(10.0, 10.0), &offset);
    assert_eq!(first, SampleAction::Dot { at: sample(10.0, 10.0) }, "a click paints a dot");
}

#[test]
fn a_drag_walks_from_the_last_sample() {
    let image = img(64, 64);
    let mut st = begin(&image, StrokeTool::Brush);
    st.extend(sample(0.0, 0.0), &offset);
    assert_eq!(
        st.extend(sample(60.0, 0.0), &offset),
        SampleAction::Segment { from: sample(0.0, 0.0), to: sample(60.0, 0.0) }
    );
    assert_eq!(
        st.extend(sample(62.0, 0.0), &offset),
        SampleAction::Segment { from: sample(60.0, 0.0), to: sample(62.0, 0.0) }
    );
}

#[test]
fn image_editor_paint_non_finite_samples_are_ignored_by_plan() {
    let image = img(16, 16);
    let mut st = begin(&image, StrokeTool::Brush);
    st.extend(sample(4.0, 4.0), &offset);
    assert_eq!(st.extend(sample(f32::INFINITY, 4.0), &offset), SampleAction::Ignore);
    assert_eq!(st.extend(sample(4.0, f32::NAN), &offset), SampleAction::Ignore);
    assert_eq!(
        st.extend(sample(5.0, 5.0), &offset),
        SampleAction::Segment { from: sample(4.0, 4.0), to: sample(5.0, 5.0) }
    );
}

#[test]
fn image_editor_paint_commit_of_an_untouched_session_returns_the_base() {
    let image = img(8, 8);
    let st = begin(&image, StrokeTool::Brush);
    assert_eq!(&st.commit()[..], image.rgba.raw());
}

#[test]
fn image_editor_paint_the_window_read_is_row_correct() {
    let mut rgba = vec![0u8; 4 * 4 * 4];
    for i in 0..16 {
        rgba[i * 4] = i as u8;
    }
    let image = DecodedImage::from_rgba8(4, 4, rgba).expect("valid");
    let st = begin(&image, StrokeTool::Brush);
    let w = st.window_rgba8(Region::new(1, 1, 3, 3));
    assert_eq!(w.len(), 3 * 3 * 4);
    let reds: Vec<u8> = w.chunks_exact(4).map(|p| p[0]).collect();
    assert_eq!(reds, vec![5, 6, 7, 9, 10, 11, 13, 14, 15]);
}

#[test]
fn image_editor_paint_the_splice_guard_skips_zero_coverage_texels() {
    // A dab in the left half under a right-half selection covers nothing.
    let image = img(16, 16);
    let right = (0..256).map(|i| if i % 16 >= 8 { 255 } else { 0 }).collect();
    let sel = SelectionCoverage::from_data(16, 16, right).expect("sized");
    let mut st = StrokeSession::begin(1, &image, params(StrokeTool::Brush), Some(Arc::new(sel)))
        .expect("begin");
    let dirty = Region::new(0, 5, 6, 6);
    let mask = st.selection().expect("frozen");
    let covered: Vec<bool> = (0..36u32)
        .map(|p| mask.coverage_at(p % 6, 5 + p / 6) > 0)
        .collect();
    st.splice(dirty, &[255u8; 6 * 6 * 4], &covered);
    assert_eq!(st.pixels(), image.rgba.raw(), "clipped stroke wrote nothing");
}

#[test]
fn image_editor_paint_the_splice_writes_where_coverage_is_positive() {
    let image = img(16, 16);
    let mut st = begin(&image, StrokeTool::Brush);
    let dirty = Region::new(5, 5, 6, 6);
    let mut covered = vec![true; 36];
    covered[0] = false;
    st.splice(dirty, &[255u8; 6 * 6 * 4], &covered);
    let at = |x: u32, y: u32| st.pixels()[((y * 16 + x) * 4) as usize];
    assert_eq!(at(8, 8), 255, "the dab centre took the spliced value");
    assert_eq!(at(5, 5), 128, "an uncovered texel stays");
    assert_eq!(at(0, 0), 128, "far corner untouched");
}

#[test]
fn image_editor_paint_a_zero_opacity_stroke_writes_nothing() {
    let image = img(16, 16);
    let mut p = params(StrokeTool::Brush);
    p.opacity = s(0.0);
    let mut st = StrokeSession::begin(1, &image, p, None).expect("begin");
    st.splice(Region::new(4, 4, 8, 8), &[255u8; 8 * 8 * 4], &[false; 64]);
    assert_eq!(st.pixels(), image.rgba.raw());
}

#[test]
fn a_stroke_off_the_canvas_composites_nothing() {
    let image = img(32, 32);
    let st = begin(&image, StrokeTool::Brush);
    assert!(st.composite(Region::new(488, 488, 24, 24)).is_none());
    assert!(st.on_canvas(Region::new(-30, 0, 24, 24)).is_none());
    assert_eq!(st.on_canvas(Region::new(-4, 28, 10, 10)), Some(Region::new(0, 28, 6, 4)));
    assert_eq!(&st.commit()[..], image.rgba.raw());
}

#[test]
fn a_composite_reads_the_base_of_its_region() {
    let image = two_tone(16, 8);
    let mut st = begin(&image, StrokeTool::Brush);
    st.splice(Region::new(0, 0, 16, 8), &[9u8; 512], &[true; 128]);
    let work = st.composite(Region::new(-2, 0, 4, 2)).expect("on the canvas");
    assert_eq!(work.region, Region::new(0, 0, 2, 2));
    assert_eq!(work.base, rgba8_to_f16(&st.window_rgba8(work.region)), "never the painted pixels");
    assert!(matches!(work.paint, StrokePaint::Paint { .. }));
    let eraser = begin(&image, StrokeTool::Eraser);
    let work = eraser.composite(Region::new(0, 0, 2, 2)).expect("on the canvas");
    assert!(matches!(work.paint, StrokePaint::Erase));
}

fn two_tone(w: u32, h: u32) -> DecodedImage {
    let mut rgba = Vec::with_capacity((w * h * 4) as usize);
    for _y in 0..h {
        for x in 0..w {
            let v = if x < w / 2 { 40u8 } else { 200u8 };
            rgba.extend_from_slice(&[v, v, v, 255]);
        }
    }
    DecodedImage::from_rgba8(w, h, rgba).expect("valid")
}

#[test]
fn image_editor_clone_the_sampling_tools_generate_no_paint_layer() {
    assert!(params(StrokeTool::Clone).solid_paint_mode().is_none());
    assert!(params(StrokeTool::Heal).solid_paint_mode().is_none());
    assert!(params(StrokeTool::Brush).solid_paint_mode().is_some());
    assert!(params(StrokeTool::Eraser).solid_paint_mode().is_some());
    assert!(StrokeTool::Clone.samples_image());
    assert!(StrokeTool::Heal.samples_image());
    assert!(!StrokeTool::Brush.samples_image());
    assert!(StrokeTool::Heal.tone_matches());
    assert!(!StrokeTool::Clone.tone_matches());
}

#[test]
fn image_editor_clone_the_source_window_is_the_base_shifted() {
    let image = two_tone(16, 8);
    let st = begin(&image, StrokeTool::Clone);
    let region = Region::new(0, 0, 4, 2);
    assert_eq!(st.source_window_rgba8(region, 0, 0), st.window_rgba8(region));
    let shifted = st.source_window_rgba8(region, 8, 0);
    assert!(shifted.chunks_exact(4).all(|p| p[0] == 200));
}

#[test]
fn image_editor_clone_out_of_bounds_source_is_transparent_not_smeared() {
    let image = two_tone(16, 8);
    let st = begin(&image, StrokeTool::Clone);
    let w = st.source_window_rgba8(Region::new(0, 0, 4, 2), -100, 0);
    assert!(w.chunks_exact(4).all(|p| p == [0, 0, 0, 0]));
    let half = st.source_window_rgba8(Region::new(0, 0, 4, 2), -2, 0);
    assert_eq!(&half[0..4], &[0, 0, 0, 0], "outside stays empty");
    assert_eq!(&half[8..12], &[40, 40, 40, 255], "inside is real pixels");
}

fn sampled(st: &StrokeSession, region: Region) -> Vec<u8> {
    match st.composite(region).expect("on the canvas").paint {
        StrokePaint::Sample { source, .. } => source,
        _ => panic!("a sampling stroke"),
    }
}

#[test]
fn image_editor_clone_the_offset_is_fixed_at_the_first_sample() {
    let image = two_tone(32, 32);
    let mut st = begin(&image, StrokeTool::Clone);
    st.set_clone_source(CloneSource { x: s(20.0), y: s(5.0), aligned: true });
    let region = Region::new(2, 3, 4, 4);
    assert!(st.composite(region).is_none(), "unresolved before the first sample");
    st.extend(sample(4.0, 5.0), &offset);
    let fixed = rgba8_to_f16(&st.source_window_rgba8(region, 16, 0));
    assert_eq!(sampled(&st, region), fixed);
    st.extend(sample(8.0, 5.0), &offset);
    assert_eq!(sampled(&st, region), fixed, "the source does not follow the cursor");
}

#[test]
fn image_editor_clone_without_an_anchor_paints_nothing() {
    let image = two_tone(32, 16);
    let mut st = begin(&image, StrokeTool::Clone);
    st.extend(sample(8.0, 8.0), &offset);
    assert!(st.composite(Region::new(0, 0, 16, 16)).is_none(), "no anchor, no paint");
    assert!(st.heal_window(Region::new(4, 4, 4, 4)).is_none());
    assert_eq!(st.pixels(), image.rgba.raw());
}

#[test]
fn a_heal_window_has_a_margin_on_the_canvas() {
    let image = two_tone(64, 32);
    let mut st = begin(&image, StrokeTool::Heal);
    st.set_clone_source(CloneSource { x: s(48.0), y: s(16.0), aligned: true });
    st.extend(sample(16.0, 16.0), &offset);
    let w = st.heal_window(Region::new(2, 13, 6, 6)).expect("anchored");
    assert_eq!(w.frame, Region::new(0, 7, 14, 18));
    assert!(w.dest.chunks_exact(4).all(|p| p[0] == 40));
    assert!(w.source.chunks_exact(4).all(|p| p[0] == 200));
    match st.composite(Region::new(2, 13, 6, 6)).expect("on the canvas").paint {
        StrokePaint::Sample { heal, .. } => assert!(heal),
        _ => panic!("a sampling stroke"),
    }
}

#[test]
fn a_field_crops_to_the_region_inside_its_frame() {
    // Three lanes per texel over a 2×2 frame; the region is its right column.
    let field: Vec<Scalar> = (0..12).map(|i| s(i as f32)).collect();
    let out = crop_field(&field, Region::new(4, 4, 2, 2), Region::new(5, 4, 1, 2));
    let want: Vec<Scalar> = [3, 4, 5, 9, 10, 11].iter().map(|i| s(*i as f32)).collect();
    assert_eq!(out, want);
}

#[test]
fn a_long_clone_stroke_reads_at_its_full_offset() {
    let image = two_tone(16, 8);
    let st = begin(&image, StrokeTool::Clone);
    let far = st.source_window_rgba8(Region::new(0, 0, 1, 1), 1 << 40, -(1 << 40));
    assert_eq!(far, vec![0, 0, 0, 0]);
}

fn f(v: Scalar) -> f32 {
    f32::from_bits(v.bits)
}

/// The correction of a healing stroke whose dab covers columns 29 to 34 of rows
/// 13 to 18.
fn healed(st: &StrokeSession) -> Option<Vec<u8>> {
    let covered = |x: u32, y: u32| (29..35).contains(&x) && (13..19).contains(&y);
    let difference = |a: u8, b: u8| s((a as f32 - b as f32) / 255.0);
    let mean = |v: &Vec<Scalar>| s(v.iter().map(|x| f(*x)).sum::<f32>() / v.len() as f32);
    let average =
        |a: Scalar, b: Scalar, c: Scalar, d: Scalar| s((f(a) + f(b) + f(c) + f(d)) * 0.25);
    let half_of = |v: Scalar| half::f16::from_f32(f(v)).to_bits();
    st.heal_field(Region::new(29, 13, 6, 6), &covered, &difference, &mean, &average, &half_of)
}

fn ramp_session(source: f32) -> StrokeSession {
    let (w, h) = (96u32, 32u32);
    let mut rgba = Vec::new();
    for _y in 0..h {
        for x in 0..w {
            let v = if x < 64 { (x * 3) as u8 } else { 30u8 };
            rgba.extend_from_slice(&[v, v, v, 255]);
        }
    }
    let image = DecodedImage::from_rgba8(w, h, rgba).expect("valid");
    let mut st = begin(&image, StrokeTool::Heal);
    st.set_clone_source(CloneSource { x: s(source), y: s(16.0), aligned: true });
    st.extend(sample(32.0, 16.0), &offset);
    st
}

#[test]
fn a_heal_field_ramps_where_the_mismatch_does() {
    let field = healed(&ramp_session(80.0)).expect("a boundary");
    assert_eq!(field.len(), 6 * 6 * 8);
    let at = |i: usize| {
        half::f16::from_le_bytes([field[8 * i], field[8 * i + 1]]).to_f32() * 255.0
    };
    // The destination is three per column above the flat source of 30.
    for (i, x) in [(12usize, 29.0f32), (17, 34.0)] {
        assert!((at(i) - (x * 3.0 - 30.0)).abs() < 3.0, "column {x}: {}", at(i));
    }
    assert!(field.chunks_exact(8).all(|t| t[6] == 0 && t[7] == 0), "alpha is never shifted");
}

#[test]
fn a_heal_field_without_a_boundary_is_none() {
    assert!(healed(&ramp_session(900.0)).is_none(), "no source pixel on the canvas");
    let image = img(64, 32);
    assert!(healed(&begin(&image, StrokeTool::Heal)).is_none(), "no anchor");
}
