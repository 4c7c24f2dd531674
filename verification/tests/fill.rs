use image_js::bridge::{f16_to_rgba8, rgba8_to_f16};
use image_js::coverage::SelectionCoverage;
use image_js::doors::gradient_spec;
use image_js::errors::IngestError;
use image_js::fill::{
    fill_rgba8, premul, ramp, FillGeometry, FillPass, FillSpec, Generator, GradientKind, Ramp,
};
use image_js::ingest::DecodedImage;
use image_js::scalar::Scalar;

fn s(v: f32) -> Scalar {
    Scalar { bits: v.to_bits() }
}

fn product(a: Scalar, b: Scalar) -> Scalar {
    s(f32::from_bits(a.bits) * f32::from_bits(b.bits))
}

fn img(w: u32, h: u32) -> DecodedImage {
    DecodedImage::from_rgba8(w, h, vec![0u8; (w * h * 4) as usize]).expect("valid")
}

#[test]
fn image_editor_generate_geometry_defaults_to_the_whole_image() {
    let g = FillGeometry::derive(8, 4, None);
    assert_eq!(g, FillGeometry { x: 0, y: 0, w: 8, h: 4 });
}

#[test]
fn image_editor_generate_geometry_follows_the_selection_bounds() {
    let mut data = vec![0u8; 16];
    for y in 1..3 {
        for x in 1..3 {
            data[y * 4 + x] = 255;
        }
    }
    let cov = SelectionCoverage::from_data(4, 4, data).expect("16 px");
    let g = FillGeometry::derive(4, 4, Some(&cov));
    assert_eq!(g, FillGeometry { x: 1, y: 1, w: 2, h: 2 });
    // Centre (2, 2) and half extent 1, in half pixels.
    assert_eq!(g.center2(), (4, 4));
    assert_eq!(g.half_extent2(), 2);
}

#[test]
fn image_editor_generate_geometry_ignores_an_empty_selection() {
    let cov = SelectionCoverage::from_data(4, 4, vec![0u8; 16]).expect("16 px");
    let g = FillGeometry::derive(4, 4, Some(&cov));
    assert_eq!(g.w, 4);
    assert_eq!(g.h, 4);
}

#[test]
fn image_editor_generate_gradient_kind_round_trips_its_wire_name() {
    for k in [
        GradientKind::Linear,
        GradientKind::Radial,
        GradientKind::Angular,
        GradientKind::Reflected,
        GradientKind::Diamond,
    ] {
        assert_eq!(GradientKind::from_wire(k.as_wire()), Some(k));
    }
    assert_eq!(GradientKind::from_wire("spiral"), None);
}

#[test]
fn image_editor_generate_premultiplies_the_stop_colors() {
    assert_eq!(
        premul([s(1.0), s(1.0), s(1.0), s(0.5)], &product),
        [s(0.5), s(0.5), s(0.5), s(0.5)]
    );
    assert_eq!(
        premul([s(0.2), s(0.4), s(0.6), s(1.0)], &product),
        [s(0.2), s(0.4), s(0.6), s(1.0)]
    );
}

#[test]
fn image_editor_generate_f16_bridge_round_trips_bytes() {
    let src = vec![0u8, 51, 128, 255];
    let back = f16_to_rgba8(&rgba8_to_f16(&src));
    assert_eq!(back, src, "the /255 → f16 → ×255 bridge is lossless at u8");
}

#[test]
fn a_linear_ramp_runs_across_the_frame() {
    let g = FillGeometry { x: 1, y: 2, w: 6, h: 4 };
    assert_eq!(ramp(GradientKind::Linear, &g), Ramp::Linear { x0: 2, y0: 8, x1: 14, y1: 8 });
}

#[test]
fn a_fill_plan_hands_out_the_window_and_brackets_only_alpha() {
    let spec = FillSpec::Noise { amount: s(0.5), seed: 7 };
    let clear = img(2, 2);
    let plan = fill_rgba8(&clear, &spec, None, &product).expect("plan");
    assert_eq!(plan.passes.len(), 4);
    assert!(matches!(
        plan.passes[0],
        FillPass::Generate { generator: Generator::Noise { seed: 7, .. } }
    ));
    assert!(
        matches!(plan.passes[1], FillPass::Premultiply),
        "a transparent backdrop takes the premultiply bracket"
    );
    assert!(matches!(plan.passes[2], FillPass::Compose { masked: false, .. }));
    assert!(matches!(plan.passes[3], FillPass::Unpremultiply));
    assert_eq!(plan.window, rgba8_to_f16(&[0; 16]));
    let opaque = DecodedImage::from_rgba8(2, 2, vec![255u8; 16]).unwrap();
    let gradient = gradient_spec(
        "radial",
        &[s(0.0), s(0.0), s(0.0), s(1.0)],
        &[s(1.0), s(1.0), s(1.0), s(0.5)],
    )
    .expect("spec");
    let cov = SelectionCoverage::from_data(2, 2, vec![0, 255, 0, 255]).expect("4 px");
    let plan = fill_rgba8(&opaque, &gradient, Some(&cov), &product).expect("plan");
    assert_eq!(plan.passes.len(), 2, "an opaque backdrop stays on the fast path");
    match plan.passes[0] {
        FillPass::Generate { generator: Generator::Gradient { ramp, c0, c1 } } => {
            assert_eq!(ramp, Ramp::Radial { cx: 3, cy: 2, radius: 2 });
            assert_eq!(c0, [s(0.0), s(0.0), s(0.0), s(1.0)]);
            assert_eq!(c1, [s(0.5); 4]);
        }
        _ => panic!("a gradient paints first"),
    }
    match plan.passes[1] {
        FillPass::Compose { opacity, masked } => {
            assert_eq!(opacity, s(1.0));
            assert!(masked);
        }
        _ => panic!("the field is composed last"),
    }
}

#[test]
fn an_empty_image_cannot_be_filled() {
    let err = fill_rgba8(&img(0, 0), &FillSpec::Noise { amount: s(1.0), seed: 1 }, None, &product)
        .err()
        .expect("refused");
    assert!(matches!(err, IngestError::Unsupported(_)), "got {err:?}");
}

#[test]
fn gradient_wires_are_refused_in_order() {
    let four = [s(0.0); 4];
    let three = [s(0.0); 3];
    assert_eq!(
        gradient_spec("spiral", &three, &four).err().unwrap(),
        "unknown gradient kind \"spiral\" (linear | radial | angular | reflected | diamond)"
    );
    assert_eq!(
        gradient_spec("linear", &three, &four).err().unwrap(),
        "gradient stops must be 4 floats each (straight RGBA in [0,1])"
    );
}
