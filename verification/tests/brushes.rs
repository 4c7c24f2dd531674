use image_js::brushes::{
    json_num, presets_of, render_json, row_json, unit_tag, AbrBrush, AbrFile, AbrTip, BrushPreset,
    Number, TipCommon,
};
use image_js::strings::json_string;

fn num(v: f64) -> Number {
    Number { bits: v.to_bits(), text: format!("{v}") }
}

fn value(n: &Option<Number>) -> Option<f64> {
    n.as_ref().map(|n| f64::from_bits(n.bits))
}

fn common(diameter: f64, unit: [u8; 4]) -> TipCommon {
    TipCommon {
        diameter: num(diameter),
        diameter_unit: unit,
        angle_deg: num(12.5),
        spacing: num(0.25),
        spacing_enabled: true,
    }
}

fn brush(name: &str, index: usize, tip: AbrTip) -> AbrBrush {
    AbrBrush { index, name: name.to_string(), tip }
}

fn file_of(brushes: Vec<AbrBrush>) -> AbrFile {
    AbrFile { version: 6, minor_version: 2, sample_count: 0, brushes, warnings: Vec::new() }
}

#[test]
fn image_abr_engine_bridge_empty_container_renders_empty_json() {
    let json = render_json(&file_of(Vec::new()));
    assert!(json.contains("\"version\":6"), "{json}");
    assert!(json.contains("\"presetCount\":0"), "{json}");
    assert!(json.contains("\"presets\":[]"), "{json}");
}

#[test]
fn image_abr_engine_bridge_escapes_hostile_preset_names() {
    let escaped = json_string("he said \"hi\"\n\tand \\ left\u{1}");
    assert_eq!(escaped, "\"he said \\\"hi\\\"\\n\\tand \\\\ left\\u0001\"");
}

#[test]
fn image_abr_engine_bridge_non_finite_numbers_become_null() {
    assert_eq!(json_num(&Some(num(f64::NAN))), "null");
    assert_eq!(json_num(&Some(num(f64::INFINITY))), "null");
    assert_eq!(json_num(&None), "null");
    assert_eq!(json_num(&Some(num(30.0))), "30");
}

#[test]
fn image_abr_engine_bridge_only_pxl_diameters_are_pixels() {
    let mut p = BrushPreset {
        index: 0,
        name: "t".into(),
        kind: "computed",
        diameter: Some(num(30.0)),
        diameter_unit: Some("#Pxl".into()),
        hardness: Some(num(0.5)),
        spacing: Some(num(0.25)),
        spacing_enabled: Some(true),
        roundness: Some(num(1.0)),
        angle_deg: Some(num(0.0)),
    };
    assert!(p.diameter_is_pixels());
    p.diameter_unit = Some("#Prc".into());
    assert!(!p.diameter_is_pixels(), "a percentage is not a pixel count");
    p.diameter_unit = None;
    assert!(!p.diameter_is_pixels());
}

#[test]
fn image_abr_engine_bridge_binary_unit_tags_are_hex() {
    assert_eq!(unit_tag(b"#Pxl"), "#Pxl");
    assert_eq!(unit_tag(&[0x00, 0xff, 0x10, 0x41]), "00ff1041");
}

#[test]
fn image_abr_engine_bridge_projects_a_computed_tip_onto_brush_params() {
    let tip = AbrTip::Computed {
        common: common(30.0, *b"#Pxl"),
        roundness: num(0.8),
        hardness: num(0.25),
    };
    let file = file_of(vec![brush("Soft Round", 0, tip)]);
    let p = &presets_of(&file)[0];
    assert_eq!(p.kind, "computed");
    assert_eq!(p.name, "Soft Round");
    assert_eq!(value(&p.diameter), Some(30.0));
    assert!(p.diameter_is_pixels());
    assert_eq!(value(&p.hardness), Some(0.25));
    assert_eq!(value(&p.roundness), Some(0.8));
    assert_eq!(value(&p.spacing), Some(0.25));
    assert_eq!(p.spacing_enabled, Some(true));
    assert_eq!(value(&p.angle_deg), Some(12.5));
}

#[test]
fn image_abr_engine_bridge_a_sampled_tip_reports_no_hardness() {
    let tip = AbrTip::Sampled { common: common(64.0, *b"#Pxl"), roundness: num(1.0) };
    let file = file_of(vec![brush("Chalk 60", 0, tip)]);
    let p = &presets_of(&file)[0];
    assert_eq!(p.kind, "sampled");
    assert_eq!(value(&p.hardness), None, "a bitmap tip carries no hardness");
    assert_eq!(value(&p.diameter), Some(64.0), "but it does carry a size");
}

#[test]
fn image_abr_engine_bridge_an_unsupported_tip_is_listed_not_dropped() {
    let file = file_of(vec![
        brush(
            "ok",
            0,
            AbrTip::Computed {
                common: common(10.0, *b"#Pxl"),
                roundness: num(1.0),
                hardness: num(1.0),
            },
        ),
        brush("exotic", 1, AbrTip::Unsupported),
        brush("headless", 2, AbrTip::Missing),
    ]);
    let presets = presets_of(&file);
    assert_eq!(presets.len(), 3, "no preset is dropped");
    assert_eq!(presets[1].kind, "unsupported");
    assert_eq!(presets[1].name, "exotic");
    assert_eq!(value(&presets[1].diameter), None);
    assert_eq!(presets[2].kind, "missing");
    assert_eq!(value(&presets[0].diameter), Some(10.0), "the good one still works");
}

#[test]
fn image_abr_engine_bridge_the_wire_shape_is_pinned_on_both_sides() {
    let tip = AbrTip::Computed {
        common: TipCommon {
            diameter: num(30.0),
            diameter_unit: *b"#Pxl",
            angle_deg: num(0.0),
            spacing: num(0.25),
            spacing_enabled: true,
        },
        roundness: num(1.0),
        hardness: num(0.5),
    };
    let json = render_json(&file_of(vec![brush("Soft Round 30", 0, tip)]));
    assert_eq!(
        json,
        "{\"version\":6,\"minorVersion\":2,\"presetCount\":1,\"sampleCount\":0,\
         \"warnings\":[],\"presets\":[{\"index\":0,\"name\":\"Soft Round 30\",\
         \"kind\":\"computed\",\"diameter\":30,\"diameterUnit\":\"#Pxl\",\
         \"hardness\":0.5,\"spacing\":0.25,\"spacingEnabled\":true,\
         \"roundness\":1,\"angle\":0}]}"
    );
}

#[test]
fn image_abr_engine_bridge_json_carries_indices_and_nulls() {
    let file = file_of(vec![
        brush(
            "A",
            0,
            AbrTip::Computed {
                common: common(30.0, *b"#Pxl"),
                roundness: num(1.0),
                hardness: num(0.5),
            },
        ),
        brush("B", 1, AbrTip::Missing),
    ]);
    let json = render_json(&file);
    assert!(json.contains("\"presetCount\":2"), "{json}");
    assert!(json.contains("\"index\":0,\"name\":\"A\""), "{json}");
    assert!(json.contains("\"hardness\":0.5"), "{json}");
    assert!(json.contains("\"index\":1,\"name\":\"B\""), "{json}");
    assert!(json.contains("\"kind\":\"missing\",\"diameter\":null"), "{json}");
}

#[test]
fn warnings_and_optional_hardness_are_carried_through() {
    let mut file = file_of(vec![
        brush(
            "worn",
            4,
            AbrTip::Erodible { common: common(8.0, *b"#Prc"), stated_hardness: None },
        ),
        brush(
            "soft",
            5,
            AbrTip::Erodible {
                common: common(8.0, *b"#Pxl"),
                stated_hardness: Some(num(0.75)),
            },
        ),
        brush("hair", 6, AbrTip::Bristle { common: common(3.0, *b"#Pxl") }),
    ]);
    file.warnings = vec!["first \"one\"".into(), "second".into()];
    let presets = presets_of(&file);
    assert_eq!(value(&presets[0].hardness), None);
    assert!(!presets[0].diameter_is_pixels());
    assert_eq!(value(&presets[1].hardness), Some(0.75));
    assert_eq!(presets[2].kind, "bristle");
    assert_eq!(value(&presets[2].roundness), None);
    let json = render_json(&file);
    assert!(json.contains("\"warnings\":[\"first \\\"one\\\"\",\"second\"]"), "{json}");
    assert!(json.contains(&row_json(&presets[1])), "{json}");
}

#[test]
fn no_two_texts_share_a_quoted_form() {
    let texts = ["", "\"", "\\", "\\\"", "\n", "\\n", "\u{1}", "\\u0001", "u0001", "n"];
    for (i, a) in texts.iter().enumerate() {
        for b in &texts[i + 1..] {
            assert_ne!(json_string(a), json_string(b));
        }
    }
    assert_eq!(json_string("\u{1f}/"), "\"\\u001f/\"");
}
