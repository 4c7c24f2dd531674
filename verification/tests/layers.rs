use image_js::adjust::AdjustParams;
use image_js::blend::{blend_kernel, blend_modes, blend_names, psd_blend_kernel, BlendMode};
use image_js::composite::{Composite, FoldStep, FoldWork};
use image_js::coverage::{Region, SelectionCoverage};
use image_js::errors::IngestError;
use image_js::layers::{
    effective_coverage, EditRecord, HistoryStep, JournalAction, LayerStack, Plate,
    BACKGROUND_LAYER_NAME,
};
use image_js::pixels::Pixels;
use image_js::scalar::Scalar;
use std::sync::Arc;

fn s(v: f32) -> Scalar {
    Scalar { bits: v.to_bits() }
}

fn px(w: u32, h: u32, v: u8) -> Arc<Vec<u8>> {
    Arc::new(vec![v; (w * h * 4) as usize])
}

fn pixels(w: u32, h: u32, v: u8) -> Pixels {
    Pixels::from_rgba8(px(w, h, v))
}

fn stack(w: u32, h: u32) -> LayerStack {
    LayerStack::from_image(w, h, px(w, h, 128)).expect("valid")
}

fn bright(v: f32) -> AdjustParams {
    AdjustParams { brightness: s(v), ..Default::default() }
}

fn none(w: u32, h: u32) -> Arc<SelectionCoverage> {
    Arc::new(SelectionCoverage::from_data(w, h, vec![0; (w * h) as usize]).expect("sized"))
}

fn left_half(w: u32, h: u32) -> Arc<SelectionCoverage> {
    let data = (0..w * h).map(|i| if i % w < w / 2 { 255 } else { 0 }).collect();
    Arc::new(SelectionCoverage::from_data(w, h, data).expect("sized"))
}

/// The pixels of a composite that needs no device.
fn done(stack: &LayerStack) -> Pixels {
    match stack.composite(false, None).expect("no device needed") {
        Composite::Done(px) => px,
        Composite::Fold(_) => panic!("a fold"),
    }
}

fn fold(stack: &LayerStack, over: Option<&Pixels>) -> Vec<FoldStep> {
    match stack.composite(true, over).expect("device") {
        Composite::Fold(steps) => steps,
        Composite::Done(_) => panic!("known without a device"),
    }
}

fn back(r: EditRecord) -> HistoryStep {
    HistoryStep { scope: r.scope, label: r.label, pixels: r.before }
}

#[test]
fn image_editor_layers_converting_to_smart_preserves_the_pixels_as_source() {
    let mut s4 = stack(4, 4);
    let before = s4.active().rgba.raw().to_vec();
    s4.make_smart(0).expect("convert");
    assert!(s4.is_smart(0));
    let src = s4.layers()[0].smart_source().expect("source");
    assert_eq!(src.rgba.raw().to_vec(), before, "the source IS the pixels it had");
    assert_eq!(src.scale, s(1.0));
    assert!(s4.layers()[0].is_pixels(), "and it still contributes pixels to the fold");
}

#[test]
fn image_editor_layers_making_smart_twice_is_idempotent() {
    let mut s4 = stack(4, 4);
    s4.make_smart(0).expect("first");
    s4.set_smart_render(0, px(4, 4, 200).to_vec(), s(0.25)).expect("render");
    s4.make_smart(0).expect("second is a no-op");
    let src = s4.layers()[0].smart_source().expect("source");
    assert_eq!(src.scale, s(0.25), "the recorded scale survived");
    assert!(
        src.rgba.raw().iter().all(|&b| b == 128),
        "and the source is still the ORIGINAL, not the 0.25 render"
    );
}

#[test]
fn image_editor_layers_an_adjustment_layer_cannot_become_smart() {
    let mut s4 = stack(4, 4);
    let at = s4.add_adjustment("Brighten", bright(0.2));
    let err = s4.make_smart(at).expect_err("refused");
    assert!(err.to_text().contains("no pixels to preserve"));
}

#[test]
fn image_editor_layers_rescaling_a_smart_object_is_lossless() {
    let mut s8 = stack(8, 8);
    let original = s8.active().rgba.raw().to_vec();
    s8.make_smart(0).expect("convert");
    s8.set_smart_render(0, px(8, 8, 3).to_vec(), s(0.1)).expect("down");
    s8.set_smart_render(0, px(8, 8, 250).to_vec(), s(1.0)).expect("back up");
    let src = s8.layers()[0].smart_source().expect("source");
    assert_eq!(src.rgba.raw().to_vec(), original, "the source survived both renders untouched");
}

#[test]
fn image_editor_layers_a_smart_render_must_match_the_canvas() {
    let mut s4 = stack(4, 4);
    s4.make_smart(0).expect("convert");
    let err = s4
        .set_smart_render(0, px(2, 2, 0).to_vec(), s(0.5))
        .expect_err("size mismatch refused");
    assert!(err.to_text().contains("canvas needs"));
}

#[test]
fn image_editor_layers_only_a_smart_object_takes_a_smart_render() {
    let mut s4 = stack(4, 4);
    let err = s4
        .set_smart_render(0, px(4, 4, 1).to_vec(), s(0.5))
        .expect_err("a plain pixel layer refuses");
    assert!(err.to_text().contains("not a smart object"));
}

#[test]
fn image_editor_layers_an_adjustment_layer_carries_no_pixels() {
    let mut s4 = stack(4, 4);
    let at = s4.add_adjustment("Brighten", bright(0.25));
    assert!(s4.is_adjustment(at));
    assert!(!s4.layers()[at].is_pixels(), "it holds params, not pixels");
    assert!(!s4.layers()[at].is_plain(), "and it is never a pass-through");
}

#[test]
fn image_editor_layers_retuning_a_pixel_layer_as_an_adjustment_is_refused() {
    let mut s4 = stack(4, 4);
    let err = s4.set_adjustment(0, bright(0.5)).expect_err("a pixel layer is not retunable");
    assert!(err.to_text().contains("holds pixels"));
}

#[test]
fn image_editor_layers_an_adjustment_layer_survives_the_transparency_skip() {
    let mut s4 = stack(4, 4);
    s4.add_adjustment("Brighten", bright(0.25));
    assert!(!s4.composite_is_trivial(), "the stack is no longer a trivial one-layer fold");
}

#[test]
fn image_editor_layers_a_new_layer_has_no_mask() {
    let s4 = stack(4, 4);
    assert!(!s4.has_mask(0), "a fresh layer is unmasked");
    assert!(s4.layers()[0].live_mask().is_none(), "and nothing is lowered for it");
}

#[test]
fn image_editor_layers_a_mask_must_match_the_canvas() {
    let mut s4 = stack(4, 4);
    let wrong = Arc::new(SelectionCoverage::full(2, 2));
    let err = s4.set_mask(0, wrong).expect_err("size mismatch is rejected");
    let msg = err.to_text();
    assert!(msg.contains("2×2"), "names the mask extent: {msg}");
    assert!(msg.contains("4×4"), "names the canvas extent: {msg}");
    assert!(!s4.has_mask(0), "and nothing was attached");
}

#[test]
fn image_editor_layers_disabling_a_mask_retains_it() {
    let mut s4 = stack(4, 4);
    s4.set_mask(0, none(4, 4)).expect("attach");
    assert!(s4.has_mask(0));
    assert!(s4.layers()[0].live_mask().is_some(), "an empty mask applies");

    s4.set_mask_enabled(0, false).expect("disable");
    assert!(s4.has_mask(0), "DISABLED is not DELETED — the coverage stays");
    assert!(s4.layers()[0].live_mask().is_none(), "but it does not apply while disabled");

    s4.set_mask_enabled(0, true).expect("re-enable");
    assert!(s4.layers()[0].live_mask().is_some(), "and re-enabling restores the same coverage");
}

#[test]
fn image_editor_layers_clearing_a_mask_deletes_it() {
    let mut s4 = stack(4, 4);
    s4.set_mask(0, none(4, 4)).expect("attach");
    s4.clear_mask(0).expect("clear");
    assert!(!s4.has_mask(0), "cleared means gone, not disabled");
}

#[test]
fn image_editor_layers_an_all_one_mask_is_the_identity() {
    let mut s4 = stack(4, 4);
    s4.set_mask(0, Arc::new(SelectionCoverage::full(4, 4))).expect("attach");
    assert!(s4.has_mask(0), "it IS attached");
    assert!(s4.layers()[0].live_mask().is_none(), "but an all-one mask lowers to nothing");
    assert!(s4.layers()[0].is_plain(), "so the identity short-circuit still applies");
}

#[test]
fn image_editor_layers_a_real_mask_defeats_the_plain_fast_path() {
    let mut s4 = stack(4, 4);
    assert!(s4.layers()[0].is_plain(), "unmasked and default: plain");
    s4.set_mask(0, none(4, 4)).expect("attach");
    assert!(!s4.layers()[0].is_plain(), "a masked layer is never plain");
    assert!(!s4.composite_is_trivial(), "and the whole composite stops being trivial");
}

#[test]
fn image_editor_layers_duplicating_carries_the_mask() {
    let mut s4 = stack(4, 4);
    s4.set_mask(0, none(4, 4)).expect("attach");
    s4.duplicate(0).expect("duplicate");
    assert_eq!(s4.len(), 2);
    assert!(s4.has_mask(0) && s4.has_mask(1), "both carry the mask");
}

#[test]
fn image_editor_layers_an_ingested_image_opens_as_one_background_layer() {
    let s8 = stack(8, 8);
    assert_eq!(s8.len(), 1);
    assert_eq!(s8.active_index(), 0);
    let l = s8.active();
    assert_eq!(l.name, BACKGROUND_LAYER_NAME);
    assert!(l.visible && !l.locked);
    assert_eq!(l.opacity, s(1.0));
    assert_eq!(l.blend_name(), "normal");
}

#[test]
fn image_editor_layers_opening_a_stack_shares_the_pixels() {
    let shared = px(64, 64, 3);
    let st = LayerStack::from_image(64, 64, Arc::clone(&shared)).expect("valid");
    assert!(Arc::ptr_eq(&st.active().rgba.raw_arc(), &shared));
}

#[test]
fn image_editor_layers_a_mis_sized_buffer_is_a_clean_error() {
    assert!(LayerStack::from_image(4, 4, px(2, 2, 0)).is_err());
    assert!(LayerStack::from_image(0, 0, px(0, 0, 0)).is_err());
}

#[test]
fn image_editor_layers_add_puts_a_transparent_layer_above_the_active_one() {
    let mut s4 = stack(4, 4);
    let at = s4.add("Paint");
    assert_eq!(at, 1, "above the background, not below it");
    assert_eq!(s4.len(), 2);
    assert_eq!(s4.active_index(), 1, "and becomes active");
    assert_eq!(s4.active().name, "Paint");
    assert!(s4.active().rgba.raw().iter().all(|&b| b == 0), "transparent");
    assert_ne!(s4.layers()[0].id, s4.layers()[1].id);
}

#[test]
fn image_editor_layers_reorder_carries_the_active_selection() {
    let mut s4 = stack(4, 4);
    s4.add("A");
    s4.add("B");
    assert_eq!(s4.active().name, "B");
    s4.reorder(2, 0).expect("in range");
    assert_eq!(
        s4.layers().iter().map(|l| l.name.as_str()).collect::<Vec<_>>(),
        vec!["B", "Background", "A"]
    );
    assert_eq!(s4.active().name, "B", "the moved layer stays active");
    assert!(s4.reorder(0, 9).is_err());
}

#[test]
fn image_editor_layers_the_last_layer_cannot_be_removed() {
    let mut s4 = stack(4, 4);
    assert!(s4.remove(0).is_err(), "a document keeps at least one layer");
    s4.add("A");
    assert!(s4.remove(1).is_ok());
    assert_eq!(s4.len(), 1);
    assert_eq!(s4.active_index(), 0, "the active index follows the removal");
}

#[test]
fn image_editor_layers_blend_is_resolved_through_the_kernel_registry() {
    let mut s4 = stack(4, 4);
    s4.set_blend(0, "multiply").expect("registered");
    assert_eq!(s4.layers()[0].blend, BlendMode::Multiply);
    s4.set_blend(0, "compose.screen").expect("qualified id works");
    assert_eq!(s4.layers()[0].blend_name(), "screen");
    assert!(
        s4.set_blend(0, "dissolve").is_err(),
        "an unregistered mode is a clean error, never a silent normal"
    );
}

#[test]
fn image_editor_layers_opacity_is_clamped() {
    let mut s4 = stack(4, 4);
    s4.set_opacity(0, s(5.0)).expect("in range");
    assert_eq!(s4.layers()[0].opacity, s(1.0));
    s4.set_opacity(0, s(-1.0)).expect("in range");
    assert_eq!(s4.layers()[0].opacity, s(0.0));
}

#[test]
fn image_editor_layers_a_locked_layer_refuses_pixel_edits_but_not_properties() {
    let mut s4 = stack(4, 4);
    s4.set_locked(0, true).expect("in range");
    assert!(s4.active_is_editable().is_err());
    assert!(s4.edit_active("paint", Region::new(0, 0, 4, 4), pixels(4, 4, 9)).is_err());
    assert!(s4.set_opacity(0, s(0.5)).is_ok());
    assert!(s4.set_name(0, "Locked").is_ok());
}

#[test]
fn image_editor_layers_every_psd_blend_key_maps_to_a_registered_kernel() {
    const KEYS: [&[u8; 4]; 26] = [
        b"norm", b"mul ", b"scrn", b"over", b"dark", b"lite", b"div ", b"idiv", b"hLit", b"sLit",
        b"diff", b"smud", b"hue ", b"sat ", b"colr", b"lum ", b"lbrn", b"lddg", b"dkCl", b"lgCl",
        b"vLit", b"lLit", b"pLit", b"hMix", b"fsub", b"fdiv",
    ];
    let mut seen: Vec<&str> = KEYS.iter().map(|k| psd_blend_kernel(k).name()).collect();
    seen.sort_unstable();
    seen.dedup();
    assert_eq!(seen.len(), 26, "every key maps to a DISTINCT kernel");
    assert_eq!(psd_blend_kernel(b"diss"), BlendMode::Normal);
    assert_eq!(psd_blend_kernel(b"pass"), BlendMode::Normal);
}

fn plate(name: &str, key: &[u8; 4], opacity: u8, hidden: bool, len: usize) -> Plate {
    Plate { name: name.to_string(), blend_key: *key, opacity, hidden, rgba: vec![0u8; len] }
}

#[test]
fn image_editor_layers_a_psd_import_becomes_a_stack_bottom_first() {
    let plates =
        vec![plate("base", b"norm", 255, false, 64), plate("mult", b"mul ", 128, true, 64)];
    let st = LayerStack::from_psd_plates(4, 4, &plates).expect("well-formed");
    assert_eq!(st.len(), 2);
    assert_eq!(st.layers()[0].name, "base");
    assert_eq!(st.layers()[1].name, "mult");
    assert_eq!(st.layers()[1].blend_name(), "multiply");
    assert_eq!(st.layers()[1].opacity, s(128.0 / 255.0));
    assert!(!st.layers()[1].visible, "the PSD hidden flag carries");
    assert_eq!(st.active_index(), 1, "the TOP layer starts active");
}

#[test]
fn image_editor_layers_a_psd_import_with_a_mis_sized_plate_is_a_clean_error() {
    let plates = vec![plate("short", b"norm", 255, false, 8)];
    assert!(LayerStack::from_psd_plates(4, 4, &plates).is_err());
}

#[test]
fn image_editor_layers_a_plain_single_layer_composites_to_itself_without_a_gpu() {
    let s8 = stack(8, 8);
    let out = done(&s8);
    assert!(
        Arc::ptr_eq(&out.raw_arc(), &s8.active().rgba.raw_arc()),
        "the identity fold returns the very same buffer"
    );
    assert!(s8.composite_is_trivial());
}

#[test]
fn image_editor_layers_a_hidden_only_layer_composites_to_transparent() {
    let mut s4 = stack(4, 4);
    s4.set_visible(0, false).expect("in range");
    assert!(s4.composite_is_trivial());
    assert!(done(&s4).raw().iter().all(|&b| b == 0));
}

#[test]
fn image_editor_layers_an_empty_layer_keeps_the_composite_trivial() {
    let mut s4 = stack(4, 4);
    s4.add("Paint");
    assert!(s4.composite_is_trivial());
    assert!(Arc::ptr_eq(&done(&s4).raw_arc(), &s4.layers()[0].rgba.raw_arc()));
}

#[test]
fn image_editor_layers_a_second_painted_layer_makes_the_composite_gpu_only() {
    let mut s4 = stack(4, 4);
    s4.add("Paint");
    s4.edit_active("fill", Region::new(0, 0, 4, 4), pixels(4, 4, 200)).expect("unlocked");
    assert!(!s4.composite_is_trivial());
    let err = s4.composite(false, None).expect_err("GPU-only");
    assert!(err.to_text().contains("GPU-only"));
}

#[test]
fn image_editor_undo_a_layer_edit_is_reversible_byte_for_byte() {
    let mut st = stack(300, 200);
    let before = st.active().rgba.raw().to_vec();
    let mut painted = before.clone();
    for p in painted.chunks_exact_mut(4) {
        p[0] = 200;
    }
    let record = st
        .edit_active("Paint", Region::new(0, 0, 300, 200), Pixels::from_vec(painted.clone()))
        .expect("unlocked");
    assert_eq!(st.active().rgba.raw(), &painted[..]);

    let scope = record.scope;
    assert_eq!(st.undo(back(record)).as_deref(), Some("Paint"));
    assert_eq!(st.active().rgba.raw(), &before[..], "byte-for-byte");
    let forward = HistoryStep {
        scope,
        label: "Paint".to_string(),
        pixels: Pixels::from_vec(painted.clone()),
    };
    assert_eq!(st.redo(forward).as_deref(), Some("Paint"));
    assert_eq!(st.active().rgba.raw(), &painted[..]);
}

#[test]
fn image_editor_undo_lands_in_the_layer_that_was_painted_not_the_active_one() {
    let mut st = stack(64, 64);
    st.add("B");
    let b_before = st.active().rgba.raw().to_vec();
    let record = st
        .edit_active("Paint B", Region::new(0, 0, 64, 64), pixels(64, 64, 200))
        .expect("unlocked");
    let a_before = st.layers()[0].rgba.raw().to_vec();

    st.set_active(0).expect("in range");
    assert_eq!(st.undo(back(record)).as_deref(), Some("Paint B"));
    assert_eq!(st.layers()[0].rgba.raw(), &a_before[..], "A is untouched");
    assert_eq!(st.layers()[1].rgba.raw(), &b_before[..], "B is restored");
    assert_eq!(st.active_index(), 1);
}

#[test]
fn a_redo_follows_the_edited_layer_wherever_the_selection_went() {
    let mut st = stack(8, 8);
    st.add("B");
    let before: Vec<Vec<u8>> = st.layers().iter().map(|l| l.rgba.raw().to_vec()).collect();
    let record = st
        .edit_active("Paint B", Region::new(0, 0, 8, 8), pixels(8, 8, 200))
        .expect("unlocked");
    let edited: Vec<Vec<u8>> = st.layers().iter().map(|l| l.rgba.raw().to_vec()).collect();
    let forward = HistoryStep {
        scope: record.scope,
        label: "Paint B".to_string(),
        pixels: pixels(8, 8, 200),
    };
    st.set_active(0).expect("in range");
    assert_eq!(st.undo(back(record)).as_deref(), Some("Paint B"));
    assert_eq!(st.active_index(), 1);
    let undone: Vec<Vec<u8>> = st.layers().iter().map(|l| l.rgba.raw().to_vec()).collect();
    assert_eq!(undone, before);
    st.set_active(0).expect("in range");
    assert_eq!(st.redo(forward).as_deref(), Some("Paint B"));
    assert_eq!(st.active_index(), 1);
    let redone: Vec<Vec<u8>> = st.layers().iter().map(|l| l.rgba.raw().to_vec()).collect();
    assert_eq!(redone, edited);
}

#[test]
fn image_editor_undo_removing_a_layer_clears_the_history() {
    let mut st = stack(32, 32);
    st.add("B");
    let record = st
        .edit_active("Paint", Region::new(0, 0, 32, 32), pixels(32, 32, 9))
        .expect("unlocked");
    assert_eq!(st.remove(1).expect("not the last layer"), JournalAction::Clear);
    assert_eq!(st.undo(back(record)), None, "its entries name a layer that is gone");
}

#[test]
fn image_editor_undo_a_damage_region_outside_the_canvas_records_nothing() {
    let mut st = stack(16, 16);
    let same = st.active().rgba.clone();
    let out = st.edit_active("Paint", Region::new(500, 500, 10, 10), same).expect("unlocked");
    assert_eq!((out.region.w, out.region.h), (0, 0));
}

#[test]
fn a_record_holds_the_damage_on_the_canvas() {
    let mut st = stack(16, 16);
    let record = st
        .edit_active("Paint", Region::new(-4, 10, 10, 10), pixels(16, 16, 1))
        .expect("unlocked");
    assert_eq!(record.region, Region::new(0, 10, 6, 6));
    assert!(record.before.raw().iter().all(|&b| b == 128));
}

#[test]
fn a_step_that_fits_no_layer_changes_nothing() {
    let mut st = stack(2, 2);
    for step in [
        HistoryStep { scope: 99, label: "x".to_string(), pixels: pixels(2, 2, 1) },
        HistoryStep { scope: 1 << 40, label: "x".to_string(), pixels: pixels(2, 2, 1) },
        HistoryStep { scope: st.active().id as u64, label: "x".to_string(), pixels: pixels(1, 1, 1) },
    ] {
        assert_eq!(st.undo(step), None);
        assert!(st.active().rgba.raw().iter().all(|&b| b == 128));
    }
}

#[test]
fn image_editor_layers_clipping_defaults_off_and_toggles() {
    let mut s8 = stack(8, 8);
    let at = s8.add_adjustment("Brighten", bright(0.3));
    assert!(!s8.layers()[at].clipped, "clipping is opt-in");
    s8.set_clipped(at, true).expect("clip");
    assert!(s8.layers()[at].clipped);
    s8.set_clipped(at, false).expect("release");
    assert!(!s8.layers()[at].clipped);
    assert!(s8.set_clipped(99, true).is_err(), "out of range is an error");
}

#[test]
fn image_editor_layers_two_coverages_multiply_rather_than_override() {
    let half = vec![255u8, 128, 0, 255];
    let base = vec![255u8, 255, 255, 0];
    let cov = Arc::new(SelectionCoverage::from_data(4, 1, half).expect("cov"));
    let out = effective_coverage(Some(&cov), Some(&base), 4, 1).expect("combined");
    assert_eq!(out.coverage_at(0, 0), 255, "full × full stays full");
    assert_eq!(out.coverage_at(1, 0), 128, "half × full is half");
    assert_eq!(out.coverage_at(2, 0), 0);
    assert_eq!(out.coverage_at(3, 0), 0, "full × none is none");
}

#[test]
fn image_editor_layers_neither_mask_nor_clip_keeps_the_fast_path() {
    assert!(effective_coverage(None, None, 4, 4).is_none());
}

#[test]
fn image_editor_layers_the_clip_flag_reaches_the_json_readout() {
    let mut s8 = stack(8, 8);
    let at = s8.add_adjustment("Brighten", bright(0.3));
    s8.set_clipped(at, true).expect("clip");
    assert!(s8.layers()[at].clipped);
}

// The fold: what is dispatched, and under which coverage.

#[test]
fn a_smart_object_folds_like_the_pixels_it_had() {
    let mut st = stack(16, 16);
    st.make_smart(0).expect("convert");
    assert!(st.composite_is_trivial());
    assert!(done(&st).raw().iter().all(|&b| b == 128));
}

#[test]
fn an_adjustment_joins_the_fold_and_leaves_it_again() {
    let mut st = stack(16, 16);
    let at = st.add_adjustment("Brighten", bright(0.4));
    let steps = fold(&st, None);
    assert_eq!(steps.iter().map(|f| f.layer).collect::<Vec<_>>(), vec![0, 1]);
    assert!(matches!(steps[0].work, FoldWork::Blend { .. }));
    assert!(matches!(steps[1].work, FoldWork::Adjust { .. }));
    st.set_visible(at, false).expect("hide");
    assert!(done(&st).raw().iter().all(|&b| b == 128), "a hidden adjustment does nothing");
    st.set_visible(at, true).expect("show");
    st.remove(at).expect("remove");
    assert!(done(&st).raw().iter().all(|&b| b == 128), "removing it restores the original");
}

#[test]
fn a_mask_is_the_coverage_of_its_step() {
    let mut st = stack(16, 16);
    st.add("Cover");
    st.edit_active("fill", Region::new(0, 0, 16, 16), pixels(16, 16, 255)).expect("unlocked");
    assert!(fold(&st, None)[1].coverage.is_none());
    st.set_mask(1, left_half(16, 16)).expect("attach");
    let steps = fold(&st, None);
    assert!(steps[0].coverage.is_none());
    let cov = steps[1].coverage.as_ref().expect("masked");
    assert_eq!((cov.coverage_at(2, 8), cov.coverage_at(13, 8)), (255, 0));
    st.set_mask_enabled(1, false).expect("disable");
    assert!(fold(&st, None)[1].coverage.is_none());
}

#[test]
fn a_clipped_adjustment_runs_under_the_alpha_of_its_base() {
    let mut st = stack(16, 8);
    st.add("Base");
    let mut rgba = Vec::new();
    for i in 0..16 * 8u32 {
        rgba.extend_from_slice(&[200, 200, 200, if i % 16 < 8 { 255 } else { 0 }]);
    }
    st.edit_active("base", Region::new(0, 0, 16, 8), Pixels::from_vec(rgba)).expect("unlocked");
    let at = st.add_adjustment("Brighten", bright(0.5));
    assert!(fold(&st, None)[2].coverage.is_none());
    st.set_clipped(at, true).expect("clip");
    let steps = fold(&st, None);
    let cov = steps[2].coverage.as_ref().expect("clipped");
    assert_eq!((cov.coverage_at(2, 0), cov.coverage_at(12, 0)), (255, 0));
}

#[test]
fn a_clipped_layer_without_a_base_is_left_out() {
    let mut st = stack(16, 8);
    st.set_clipped(0, true).expect("clip");
    let at = st.add_adjustment("Brighten", bright(0.5));
    let steps = fold(&st, None);
    assert_eq!(steps.iter().map(|s| s.layer).collect::<Vec<_>>(), [at]);
    st.set_clipped(at, true).expect("clip the adjustment too");
    assert!(fold(&st, None).is_empty());
    assert!(st.composite(false, None).is_err(), "two plates are folded by a device");
}

#[test]
fn a_baseless_clip_under_a_plain_layer_is_folded() {
    let mut st = stack(2, 2);
    st.set_clipped(0, true).expect("clip");
    st.add("Cover");
    st.edit_active("fill", Region::new(0, 0, 2, 2), pixels(2, 2, 200)).expect("unlocked");
    assert!(!st.composite_is_trivial(), "two layers contribute");
    let err = st.composite(false, None).expect_err("GPU-only");
    assert!(err.to_text().contains("GPU-only"));
    assert_eq!(fold(&st, None).iter().map(|s| s.layer).collect::<Vec<_>>(), [1]);
}

#[test]
fn a_stroke_in_flight_stands_in_for_the_active_layer() {
    let mut st = stack(8, 8);
    st.add("Paint");
    let white = pixels(8, 8, 255);
    assert_eq!(st.plates(None), vec![0]);
    assert_eq!(st.plates(Some(&white)), vec![0, 1]);
    assert_eq!(fold(&st, Some(&white)).len(), 2);
    assert!(st.active().rgba.raw().iter().all(|&b| b == 0));
}

#[test]
fn the_blend_registry_is_complete_and_unambiguous() {
    let names = blend_names();
    assert_eq!(names.len(), 26);
    assert!(names.contains(&"normal"));
    for mode in blend_modes() {
        assert_eq!(blend_kernel(mode.name()), Some(mode));
        assert_eq!(blend_kernel(&format!("compose.{}", mode.name())), Some(mode));
    }
    assert_eq!(blend_kernel("dissolve"), None);
    assert_eq!(blend_kernel(""), None);
}

#[test]
fn every_index_is_checked() {
    let mut st = stack(2, 2);
    for r in [
        st.set_active(7),
        st.set_visible(7, true),
        st.set_locked(7, true),
        st.set_opacity(7, s(0.5)),
        st.set_name(7, "x"),
        st.set_blend(7, "normal"),
        st.clear_mask(7),
        st.set_mask_enabled(7, true),
        st.make_smart(7),
        st.set_adjustment(7, bright(0.1)),
    ] {
        let e = r.expect_err("out of range");
        assert!(matches!(&e, IngestError::Unsupported(t) if t == "no layer 7"), "{e:?}");
    }
    assert!(st.duplicate(7).is_none());
    assert!(!st.is_smart(7) && !st.is_adjustment(7) && !st.has_mask(7));
}

#[test]
fn unnamed_layers_are_numbered() {
    let mut st = stack(2, 2);
    st.add("");
    st.add_adjustment("", bright(0.1));
    let names: Vec<&str> = st.layers().iter().map(|l| l.name.as_str()).collect();
    assert_eq!(names, vec!["Background", "Layer 2", "Adjustment 3"]);
}

#[test]
fn a_lone_clipped_layer_shows_nothing() {
    let mut st = LayerStack::from_image(2, 2, px(2, 2, 255)).expect("valid");
    assert!(st.layers()[0].is_plain());
    st.set_clipped(0, true).expect("clip");
    assert!(!st.layers()[0].is_plain());
    assert!(st.composite_is_trivial());
    assert_eq!(done(&st).raw(), [0u8; 16], "there is nothing to clip to");
}

#[test]
fn a_step_is_masked_over_the_whole_canvas() {
    let mut st = stack(4, 2);
    let at = st.add_adjustment("Brighten", bright(0.5));
    st.set_clipped(at, true).expect("clip");
    match st.composite(true, None).expect("a device") {
        Composite::Fold(steps) => {
            let c = steps[1].coverage.as_deref().expect("clipped");
            assert_eq!((c.width(), c.height()), (4, 2));
            assert!(c.data().iter().all(|b| *b == 128));
        }
        Composite::Done(_) => panic!("a fold"),
    }
}
