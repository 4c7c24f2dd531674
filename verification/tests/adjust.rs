//! The order and the parameters of the adjustment chain.

use image_js::adjust::{
    AdjustParams, BlackWhiteParams, ChannelMixerParams, ColorBalanceParams, LevelsParams,
    LevelsRgbParams, PhotoFilterParams, Stage,
};
use image_js::scalar::Scalar;

fn s(v: f32) -> Scalar {
    Scalar { bits: v.to_bits() }
}

fn f(v: Scalar) -> f32 {
    f32::from_bits(v.bits)
}

fn radius(sigma: Scalar) -> u32 {
    (f(sigma) * 3.0).ceil().min(32.0) as u32
}

fn name(stage: &Stage) -> &'static str {
    match stage {
        Stage::Exposure { .. } => "exposure",
        Stage::WhiteBalance { .. } => "white balance",
        Stage::Levels { .. } => "levels",
        Stage::LevelsRgb { .. } => "levels rgb",
        Stage::BrightnessContrast { .. } => "brightness and contrast",
        Stage::ColorBalance { .. } => "color balance",
        Stage::PhotoFilter { .. } => "photo filter",
        Stage::ChannelMixer { .. } => "channel mixer",
        Stage::Vibrance { .. } => "vibrance",
        Stage::Saturation { .. } => "saturation",
        Stage::BlackWhite { .. } => "black and white",
        Stage::Posterize { .. } => "posterize",
        Stage::Threshold { .. } => "threshold",
        Stage::HueRotate { .. } => "hue",
        Stage::Invert => "invert",
        Stage::Blur { .. } => "blur",
        Stage::Sharpen { .. } => "sharpen",
    }
}

/// Every stage switched on.
fn everything() -> AdjustParams {
    let d = AdjustParams::default();
    AdjustParams {
        exposure_ev: s(0.5),
        brightness: s(0.1),
        contrast: s(1.1),
        saturation: s(1.2),
        temp: s(0.1),
        tint: s(-0.1),
        levels: LevelsParams { gamma: s(1.4), ..d.levels },
        curve_lut: None,
        blur_sigma: s(2.0),
        sharpen_amount: s(0.8),
        hue_degrees: s(30.0),
        invert: true,
        vibrance: s(0.3),
        color_balance: ColorBalanceParams { midtones: [s(0.1), s(0.0), s(0.0)], ..d.color_balance },
        photo_filter: PhotoFilterParams { density: s(0.25), ..d.photo_filter },
        channel_mixer: ChannelMixerParams {
            r: [s(0.5), s(0.5), s(0.0), s(0.0)],
            ..d.channel_mixer
        },
        levels_rgb: LevelsRgbParams { g: [s(0.1), s(1.0), s(1.0)], ..d.levels_rgb },
        black_white: BlackWhiteParams { enabled: true, ..d.black_white },
        posterize: Some(s(4.0)),
        threshold: Some(s(0.5)),
    }
}

#[test]
fn the_chain_runs_every_stage_once_in_its_order() {
    let names: Vec<&str> = everything().plan(&radius).iter().map(name).collect();
    assert_eq!(
        names,
        [
            "exposure",
            "white balance",
            "levels",
            "levels rgb",
            "brightness and contrast",
            "color balance",
            "photo filter",
            "channel mixer",
            "vibrance",
            "saturation",
            "black and white",
            "posterize",
            "threshold",
            "hue",
            "invert",
            "blur",
            "sharpen",
        ]
    );
}

#[test]
fn neutral_parameters_run_no_stage() {
    assert!(AdjustParams::default().plan(&radius).is_empty());
}

#[test]
fn sharpening_works_against_a_fixed_blur() {
    let params = AdjustParams { sharpen_amount: s(0.8), ..Default::default() };
    match params.plan(&radius)[..] {
        [Stage::Sharpen { amount, threshold, sigma, radius }] => {
            assert_eq!((f(amount), f(threshold), f(sigma), radius), (0.8, 0.0, 1.5, 5));
        }
        ref other => panic!("{other:?}"),
    }
}

#[test]
fn vibrance_leaves_the_global_offset_at_zero() {
    let params = AdjustParams { vibrance: s(-0.4), ..Default::default() };
    match params.plan(&radius)[..] {
        [Stage::Vibrance { amount, saturation }] => {
            assert_eq!((f(amount), f(saturation)), (-0.4, 0.0));
        }
        ref other => panic!("{other:?}"),
    }
}

#[test]
fn a_negative_blur_or_sharpening_is_off() {
    let params =
        AdjustParams { blur_sigma: s(-1.0), sharpen_amount: s(-1.0), ..Default::default() };
    assert!(params.plan(&radius).is_empty());
}

#[test]
fn a_panel_starts_from_the_warming_gel_and_the_conventional_mix() {
    let p = AdjustParams::default();
    assert_eq!(p.photo_filter.color.map(f), [0.925, 0.639, 0.365]);
    assert!(p.photo_filter.preserve_luminosity);
    assert_eq!(p.black_white.weights.map(f), [0.4, 0.6, 0.4, 0.6, 0.2, 0.8]);
}

#[test]
fn a_blur_goes_out_to_the_radius_of_its_sigma() {
    let blurred = |sigma: f32| {
        let params = AdjustParams { blur_sigma: s(sigma), ..Default::default() };
        match params.plan(&radius)[..] {
            [Stage::Blur { sigma, radius }] => (f(sigma), radius),
            ref other => panic!("{other:?}"),
        }
    };
    assert_eq!(blurred(2.25), (2.25, 7));
    assert_eq!(blurred(40.0), (40.0, 32), "within the kernel's window");
}
