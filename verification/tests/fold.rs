use image_js::adjust::AdjustParams;
use image_js::blend::BlendMode;
use image_js::bridge::rgba8_to_f16;
use image_js::composite::{Composite, FoldStep, FoldWork};
use image_js::fold::{window_is_opaque, Fold, FoldAction, FoldPhase};
use image_js::layers::LayerStack;
use image_js::pixels::Pixels;
use image_js::scalar::Scalar;

fn s(v: f32) -> Scalar {
    Scalar { bits: v.to_bits() }
}

fn blend(px: [u8; 4]) -> FoldStep {
    let work = FoldWork::Blend {
        pixels: Pixels::from_vec(px.to_vec()),
        blend: BlendMode::Multiply,
        opacity: s(0.5),
    };
    FoldStep { layer: 0, work, coverage: None }
}

fn adjust(params: AdjustParams) -> FoldStep {
    FoldStep { layer: 1, work: FoldWork::Adjust { params }, coverage: None }
}

fn negative() -> [u8; 256] {
    let mut lut = [0u8; 256];
    for (i, v) in lut.iter_mut().enumerate() {
        *v = 255 - i as u8;
    }
    lut
}

#[test]
fn a_window_is_opaque_where_every_alpha_is_one() {
    assert!(window_is_opaque(&rgba8_to_f16(&[1, 2, 3, 255, 4, 5, 6, 255])));
    assert!(!window_is_opaque(&rgba8_to_f16(&[1, 2, 3, 255, 4, 5, 6, 254])));
    assert!(window_is_opaque(&[]));
}

#[test]
fn an_opaque_layer_is_blended_at_once() {
    let (mut fold, first) = Fold::begin(vec![blend([10, 20, 30, 255])], 1, 1);
    match first {
        FoldAction::Blend { backdrop, top, blend, opacity, coverage } => {
            assert_eq!(backdrop, vec![0; 8], "the fold starts transparent");
            assert_eq!(top, rgba8_to_f16(&[10, 20, 30, 255]));
            assert_eq!(blend, BlendMode::Multiply);
            assert_eq!(opacity, s(0.5));
            assert!(coverage.is_none());
        }
        other => panic!("got {other:?}"),
    }
    let blended = rgba8_to_f16(&[1, 2, 3, 255]);
    match fold.land(blended) {
        FoldAction::Finish { rgba } => assert_eq!(rgba, vec![1, 2, 3, 255]),
        other => panic!("got {other:?}"),
    }
    assert_eq!(fold.phase, FoldPhase::Ended);
}

#[test]
fn a_translucent_layer_goes_in_and_out_of_premultiplied_space() {
    let (mut fold, first) = Fold::begin(vec![blend([10, 20, 30, 128])], 1, 1);
    assert!(matches!(first, FoldAction::Premultiply { .. }));
    let premultiplied = rgba8_to_f16(&[5, 10, 15, 128]);
    match fold.land(premultiplied.clone()) {
        FoldAction::Blend { top, .. } => assert_eq!(top, premultiplied),
        other => panic!("got {other:?}"),
    }
    let acc = rgba8_to_f16(&[2, 5, 7, 64]);
    match fold.land(acc.clone()) {
        FoldAction::Unpremultiply { window } => assert_eq!(window, acc),
        other => panic!("got {other:?}"),
    }
    match fold.land(rgba8_to_f16(&[8, 20, 28, 64])) {
        FoldAction::Finish { rgba } => assert_eq!(rgba, vec![8, 20, 28, 64]),
        other => panic!("got {other:?}"),
    }
}

#[test]
fn an_adjustment_runs_over_the_straight_backdrop() {
    let bright = AdjustParams { brightness: s(0.4), ..AdjustParams::default() };
    let (mut fold, _) = Fold::begin(vec![blend([10, 20, 30, 255]), adjust(bright)], 1, 1);
    match fold.land(rgba8_to_f16(&[1, 2, 3, 200])) {
        FoldAction::Unpremultiply { .. } => {}
        other => panic!("got {other:?}"),
    }
    match fold.land(rgba8_to_f16(&[2, 3, 4, 200])) {
        FoldAction::Adjust { rgba, params, .. } => {
            assert_eq!(rgba, vec![2, 3, 4, 200]);
            assert_eq!(params.plan(&|_: Scalar| 5).len(), 1);
        }
        other => panic!("got {other:?}"),
    }
    match fold.land(vec![9, 9, 9, 200]) {
        FoldAction::Premultiply { window } => assert_eq!(window, rgba8_to_f16(&[9, 9, 9, 200])),
        other => panic!("got {other:?}"),
    }
    assert!(matches!(fold.land(rgba8_to_f16(&[7, 7, 7, 200])), FoldAction::Unpremultiply { .. }));
}

#[test]
fn a_curve_over_an_opaque_backdrop_asks_for_nothing() {
    let curve = AdjustParams { curve_lut: Some(negative()), ..AdjustParams::default() };
    let steps = vec![blend([10, 20, 30, 255]), adjust(curve), adjust(curve), adjust(curve)];
    let (mut fold, _) = Fold::begin(steps, 1, 1);
    match fold.land(rgba8_to_f16(&[1, 2, 3, 255])) {
        FoldAction::Finish { rgba } => assert_eq!(rgba, vec![254, 253, 252, 255]),
        other => panic!("got {other:?}"),
    }
}

#[test]
fn the_steps_of_a_stack_fold_to_an_end() {
    let mut stack = LayerStack::from_image(2, 1, vec![128; 8].into()).expect("stack");
    let at = stack.add("Paint");
    stack.set_opacity(at, s(0.5)).expect("opacity");
    let px = Pixels::from_vec(vec![200, 0, 0, 255, 0, 200, 0, 128]);
    let steps = match stack.composite(true, Some(&px)).expect("plan") {
        Composite::Fold(steps) => steps,
        Composite::Done(_) => panic!("two plates fold"),
    };
    let (mut fold, mut action) = Fold::begin(steps, 2, 1);
    let mut calls = 0;
    let rgba = loop {
        action = match action {
            FoldAction::Premultiply { window } | FoldAction::Unpremultiply { window } => {
                fold.land(window)
            }
            FoldAction::Blend { top, .. } => fold.land(top),
            FoldAction::Adjust { rgba, .. } => fold.land(rgba),
            FoldAction::Finish { rgba } => break rgba,
        };
        calls += 1;
        assert!(calls <= 9, "four calls for each step and one more");
    };
    assert_eq!(rgba, vec![200, 0, 0, 255, 0, 200, 0, 128]);
}
