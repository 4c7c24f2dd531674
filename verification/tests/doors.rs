use image_js::adjust::{AdjustParams, LevelsParams, ADJUST_EXT_LEN};
use image_js::blend::BlendMode;
use image_js::doors::{
    build_adjust_params, curve_table, decode_aspect, decode_filter, decode_format, decode_mode,
    gradient_spec, hit_code, layers_history, layers_list, pair_up, polygon_points, psd_layer_list,
    stroke_params, AdjustWire, AspectLock, CropHandle, History, PsdRecord, ResampleFilter,
    StrokeWire,
};
use image_js::fill::{FillSpec, GradientKind};
use image_js::layers::{HistoryStats, LayerStack};
use image_js::saveback::RasterFormat;
use image_js::scalar::Scalar;
use image_js::selection::CombineMode;
use image_js::stroke::{PressureTarget, StrokeTool};
use std::sync::Arc;

fn s(v: f32) -> Scalar {
    Scalar { bits: v.to_bits() }
}

fn list(v: &[f32]) -> Vec<Scalar> {
    v.iter().map(|x| s(*x)).collect()
}

#[test]
fn an_aspect_is_free_where_a_side_is_not_positive() {
    assert_eq!(decode_aspect(s(16.0), s(9.0)), AspectLock::Ratio(s(16.0), s(9.0)));
    assert_eq!(decode_aspect(s(0.0), s(9.0)), AspectLock::Free);
    assert_eq!(decode_aspect(s(16.0), s(-1.0)), AspectLock::Free);
}

#[test]
fn crop_grips_round_trip_their_numbers() {
    for code in 0..9 {
        assert_eq!(CropHandle::from_code(code).map(|h| h.code()), Some(code));
    }
    assert_eq!(CropHandle::from_code(9), None);
    assert_eq!(CropHandle::from_code(-1), None);
    assert_eq!(hit_code(Some(CropHandle::Move)), 8);
    assert_eq!(hit_code(None), -1);
}

#[test]
fn flat_lists_pair_up() {
    assert_eq!(pair_up(&list(&[1.0, 2.0, 3.0])), vec![(s(1.0), s(2.0))]);
    let triangle = list(&[0.0, 0.0, 4.0, 0.0, 4.0, 4.0]);
    assert_eq!(polygon_points(&triangle).expect("three").len(), 3);
    assert!(polygon_points(&triangle[..4]).is_err());
    assert!(polygon_points(&triangle[..5]).is_err());
}

#[test]
fn selection_modes_are_numbered() {
    assert_eq!(decode_mode(0), Ok(CombineMode::Replace));
    assert_eq!(decode_mode(1), Ok(CombineMode::Add));
    assert_eq!(decode_mode(2), Ok(CombineMode::Subtract));
    assert_eq!(decode_mode(3), Ok(CombineMode::Intersect));
    assert_eq!(
        decode_mode(4),
        Err("unknown selection mode 4 (0 replace | 1 add | 2 subtract | 3 intersect)".to_string())
    );
}

#[test]
fn filters_and_formats_are_named() {
    assert_eq!(decode_filter("nearest"), Ok(ResampleFilter::Nearest));
    assert_eq!(decode_filter("mitchell"), Ok(ResampleFilter::Mitchell));
    assert_eq!(decode_filter("lanczos3"), Ok(ResampleFilter::Lanczos3));
    assert_eq!(
        decode_filter("cubic"),
        Err("unknown resample filter \"cubic\" (nearest | mitchell | lanczos3)".to_string())
    );
    assert_eq!(decode_format("jpg"), Ok(RasterFormat::Jpeg));
    assert_eq!(decode_format("gif"), Err("unknown encode format \"gif\"".to_string()));
}

#[test]
fn a_gradient_needs_a_kind_and_two_stops() {
    let (a, b) = (list(&[0.0, 0.0, 0.0, 1.0]), list(&[1.0, 1.0, 1.0, 1.0]));
    match gradient_spec("radial", &a, &b).expect("a gradient") {
        FillSpec::Gradient { kind, c0, c1 } => {
            assert_eq!(kind, GradientKind::Radial);
            assert_eq!((&c0[..], &c1[..]), (&a[..], &b[..]));
        }
        _ => panic!("a gradient"),
    }
    assert!(gradient_spec("spiral", &a, &b).unwrap_err().contains("\"spiral\""));
    assert!(gradient_spec("linear", &a[..3], &b).unwrap_err().contains("4 floats"));
}

fn wire() -> AdjustWire {
    let n = AdjustParams::default();
    AdjustWire {
        exposure_ev: n.exposure_ev,
        brightness: n.brightness,
        contrast: n.contrast,
        saturation: n.saturation,
        temp: n.temp,
        tint: n.tint,
        levels: LevelsParams {
            in_black: s(0.0),
            in_white: s(1.0),
            gamma: s(1.0),
            out_black: s(0.0),
            out_white: s(1.0),
        },
        blur_sigma: n.blur_sigma,
        sharpen_amount: n.sharpen_amount,
        hue_degrees: n.hue_degrees,
        invert: false,
    }
}

#[test]
fn an_adjustment_decodes_its_scalars_its_curve_and_its_block() {
    assert!(build_adjust_params(wire(), &[], &[]).expect("neutral").is_identity());
    let mut w = wire();
    w.brightness = s(0.25);
    let p = build_adjust_params(w, &[7; 256], &[]).expect("a curve");
    assert_eq!(p.brightness, s(0.25));
    assert_eq!(p.curve_lut, Some([7; 256]));
    assert!(build_adjust_params(w, &[7; 255], &[]).unwrap_err().contains("(got 255)"));
    assert!(build_adjust_params(w, &[], &list(&[1.0])).is_err());
    let mut ext = vec![s(0.0); ADJUST_EXT_LEN];
    ext[0] = s(0.5);
    assert_eq!(build_adjust_params(w, &[], &ext).expect("a block").vibrance, s(0.5));
    assert_eq!(curve_table(&[]), Ok(None));
}

fn brush() -> StrokeWire {
    StrokeWire { size: s(9.0), hardness: s(1.0), opacity: s(0.5), flow: s(1.0), spacing: s(0.1) }
}

#[test]
fn stroke_wires_are_read_in_order() {
    let c = list(&[1.0, 0.0, 0.0, 1.0]);
    let p = stroke_params("pencil", brush(), "multiply", &c, "size").expect("a stroke");
    assert_eq!(p.tool, StrokeTool::Pencil);
    assert_eq!(p.blend, BlendMode::Multiply);
    assert_eq!(p.pressure, PressureTarget::Size);
    assert_eq!((p.size, p.opacity), (s(9.0), s(0.5)));
    assert_eq!(&p.color[..], &c[..]);
    let err = |t: &str, b: &str, n: usize, pr: &str| {
        stroke_params(t, brush(), b, &c[..n], pr).err().expect("refused")
    };
    assert!(err("spray", "x", 3, "x").contains("unknown paint tool \"spray\""));
    assert!(err("brush", "x", 3, "x").contains("unknown blend mode \"x\""));
    assert!(err("brush", "normal", 3, "x").contains("unknown pressure target \"x\""));
    assert!(err("brush", "normal", 3, "none").contains("4 floats"));
    assert_eq!(PressureTarget::from_wire("both"), Some(PressureTarget::Both));
    assert_eq!(PressureTarget::from_wire("opacity"), Some(PressureTarget::Opacity));
}

#[test]
fn a_record_list_is_json() {
    let record = PsdRecord {
        name: "a\"b".to_string(),
        opacity: 128,
        flags: 2,
        top: -1,
        left: 0,
        bottom: 3,
        right: 4,
    };
    assert_eq!(
        psd_layer_list(&vec![record]),
        "[{\"index\":0,\"name\":\"a\\\"b\",\"opacity\":128,\"hidden\":true,\"top\":-1,\"left\":0,\"bottom\":3,\"right\":4}]"
    );
    assert_eq!(psd_layer_list(&Vec::new()), "[]");
}

#[test]
fn a_stack_is_json() {
    assert_eq!(layers_list(None, &Vec::new()), "{\"active\":-1,\"layers\":[]}");
    let mut st = LayerStack::from_image(1, 1, Arc::new(vec![1, 2, 3, 4])).expect("valid");
    let params = AdjustParams { brightness: s(0.2), ..Default::default() };
    let at = st.add_adjustment("Up", params);
    st.set_clipped(at, true).expect("clip");
    assert_eq!(
        layers_list(Some(&st), &vec!["1".to_string(), "0.5".to_string()]),
        "{\"active\":1,\"layers\":[{\"index\":0,\"id\":1,\"name\":\"Background\",\"visible\":true,\"locked\":false,\"opacity\":1,\"blend\":\"normal\",\"hasMask\":false,\"maskEnabled\":true,\"kind\":\"pixels\"},{\"index\":1,\"id\":2,\"name\":\"Up\",\"visible\":true,\"locked\":false,\"opacity\":0.5,\"blend\":\"normal\",\"hasMask\":false,\"maskEnabled\":true,\"kind\":\"adjustment\"}]}"
    );
}

#[test]
fn a_history_is_json() {
    assert_eq!(layers_history(None), "null");
    let h = History {
        stats: HistoryStats {
            can_undo: true,
            can_redo: true,
            depth: 2,
            redo_depth: 2,
            bytes: 64,
            max_bytes: 1000,
            max_entries: 50,
            dropped: 0,
            generation: 7,
        },
        undo: vec!["Fill".to_string(), "Paint".to_string()],
        redo: vec!["Crop".to_string(), "Blur".to_string()],
    };
    assert_eq!(
        layers_history(Some(&h)),
        "{\"canUndo\":true,\"canRedo\":true,\"depth\":2,\"redoDepth\":2,\"bytes\":64,\"maxBytes\":1000,\"maxEntries\":50,\"dropped\":0,\"generation\":7,\"undoLabel\":\"Paint\",\"redoLabel\":\"Crop\",\"undoSteps\":[\"Fill\",\"Paint\"],\"redoSteps\":[\"Crop\",\"Blur\"]}"
    );
}

#[test]
fn an_empty_history_has_no_labels() {
    let h = History {
        stats: HistoryStats {
            can_undo: false,
            can_redo: false,
            depth: 0,
            redo_depth: 0,
            bytes: 0,
            max_bytes: 1,
            max_entries: 1,
            dropped: 0,
            generation: 0,
        },
        undo: Vec::new(),
        redo: Vec::new(),
    };
    let text = layers_history(Some(&h));
    assert!(text.ends_with(
        "\"undoLabel\":null,\"redoLabel\":null,\"undoSteps\":[],\"redoSteps\":[]}"
    ));
}
