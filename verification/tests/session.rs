use image_js::adjust::AdjustParams;
use image_js::bridge::rgba8_to_f16;
use image_js::composite::Composite;
use image_js::coverage::{Frame, Region, SelectionCoverage};
use image_js::display::DisplayTreatment;
use image_js::doors::ResampleFilter;
use image_js::editing::letterbox;
use image_js::layers::{HistoryStep, Plate};
use image_js::pixels::Pixels;
use image_js::scalar::Scalar;
use image_js::selection::CombineMode;
use image_js::session::{AdjustRun, Landing, Session};
use image_js::stroke::{StrokeParams, StrokeTool};

fn s(v: f32) -> Scalar {
    Scalar { bits: v.to_bits() }
}

fn radius(_sigma: Scalar) -> u32 {
    5
}

fn bright() -> AdjustParams {
    AdjustParams { brightness: s(0.2), ..Default::default() }
}

/// A session with one 4×4 image of value 9.
fn open() -> (Session, u32) {
    let mut session = Session::new();
    let id = session.ingest_rgba8(4, 4, vec![9; 64]).expect("valid");
    (session, id.handle)
}

fn keep_new(_: &SelectionCoverage, new: &SelectionCoverage, _: CombineMode) -> SelectionCoverage {
    SelectionCoverage::from_data(new.width(), new.height(), new.data().to_vec()).expect("sized")
}

/// Select the pixel at column 1 of row 2.
fn select_one(session: &mut Session, handle: u32) {
    session.selection_bind(handle).expect("held");
    let mut data = vec![0u8; 16];
    data[2 * 4 + 1] = 255;
    let shape = SelectionCoverage::from_data(4, 4, data).expect("sized");
    session.selection.apply_shape(shape, CombineMode::Replace, &keep_new).expect("bound");
}

#[test]
fn handles_start_at_one_and_never_repeat() {
    let (mut session, first) = open();
    assert_eq!(first, 1);
    session.free_image(first);
    let id = session.ingest_rgba8(1, 1, vec![0; 4]).expect("valid");
    assert_eq!((id.handle, id.width, id.height, id.display), (2, 1, 1, 1));
    assert!(session.image(first).err().expect("gone").contains("unknown image handle 1"));
    let err = session.ingest_rgba8(2, 2, vec![0; 4]).err().expect("torn");
    assert!(err.starts_with("decode: ingest_rgba8: 4 bytes for 2x2"), "{err}");
    assert_eq!(session.read_display(99), 1);
}

#[test]
fn a_crop_leaves_its_source() {
    let (mut session, handle) = open();
    let id = session.crop_image(handle, 2, 2, 9, 9).expect("on the image");
    assert_eq!((id.handle, id.width, id.height), (2, 2, 2));
    assert_eq!(session.image(handle).expect("held").width, 4);
    assert!(!session.image(id.handle).expect("held").depth_reduced, "nothing was narrowed");
    session.images.get_mut(&handle).expect("held").rgba = Pixels::from_rgba16(&[0x1234; 64]);
    let narrowed = session.crop_image(handle, 2, 2, 9, 9).expect("on the image");
    let cut = session.image(narrowed.handle).expect("held");
    assert_eq!(cut.rgba.raw(), &[0x12; 16]);
    assert!(cut.depth_reduced, "a 16-bit source came out at 8 bits");
    assert!(session.crop_image(handle, 9, 9, 1, 1).is_err());
    assert!(session.crop_image(77, 0, 0, 1, 1).is_err());
}

#[test]
fn tiles_come_from_their_level_until_the_pixels_change() {
    let (mut session, handle) = open();
    assert_eq!(session.image_tile_rgba8(handle, 3, 3, 4, 4).expect("held"), vec![9; 4]);
    assert_eq!(session.image_tile_rgba8_level(handle, 1, 0, 0, 8).expect("held"), vec![9; 16]);
    assert_eq!(session.image_tile_rgba8_level(handle, 2, 0, 0, 8).expect("held"), vec![9; 4]);
    assert!(session.image_tile_rgba8_level(handle, 3, 0, 0, 8).expect("held").is_empty());
    session.set_image_pixels(handle, Pixels::from_vec(vec![7; 64])).expect("same extent");
    assert_eq!(session.image_tile_rgba8_level(handle, 1, 0, 0, 1).expect("held"), vec![7; 4]);
    assert_eq!(
        session.image_tile_rgba8_level(handle, 256, 0, 0, 8),
        Err("mip level 256 out of range (max 255)".to_string())
    );
    assert!(session.set_image_pixels(handle, Pixels::from_vec(vec![7; 60])).is_err());
}

#[test]
fn the_selection_follows_its_image() {
    let (mut session, handle) = open();
    assert!(session.wand_image(0, 0).is_err());
    assert_eq!(session.selection_bounds(), None);
    select_one(&mut session, handle);
    assert_eq!(session.selection_bounds(), Some(Frame { x: 1, y: 2, w: 1, h: 1 }));
    let stats = session.selection_stats();
    assert!(stats.has);
    assert_eq!(stats.frame, session.selection_bounds());
    assert_eq!(session.selection_coverage_bytes().len(), 16);
    assert!(session.wand_image(3, 3).is_ok());
    assert_eq!(
        session.wand_image(4, 0).err().expect("outside"),
        "wand seed (4,0) outside 4x4".to_string()
    );
    let other = session.ingest_rgba8(4, 4, vec![1; 64]).expect("valid").handle;
    assert_eq!(session.selection_transfer(other), Ok(true));
    assert!(session.selection_stats().has);
    assert!(session.selection_bind(50).is_err());
    session.free_image(other);
    assert_eq!(
        session.wand_image(0, 0).err().expect("gone"),
        "bound image handle 2 is gone".to_string()
    );
}

#[test]
fn an_identity_adjustment_is_the_image() {
    let (mut session, handle) = open();
    match session.adjust_run(handle, &AdjustParams::default(), false, &radius).expect("no device needed") {
        AdjustRun::Verbatim(bytes) => assert_eq!(bytes, vec![9; 64]),
        AdjustRun::Stages { .. } => panic!("nothing to run"),
    }
    assert!(session.adjust_run(handle, &bright(), false, &radius).is_err());
    select_one(&mut session, handle);
    match session.adjust_run(handle, &bright(), true, &radius).expect("device") {
        AdjustRun::Stages { stages, mask, .. } => {
            assert_eq!(stages.len(), 1);
            assert!(mask.is_some());
        }
        AdjustRun::Verbatim(_) => panic!("a stage runs"),
    }
}

#[test]
fn a_resize_is_planned_and_registered() {
    let (mut session, handle) = open();
    let plan = session.resize_plan(handle, 2, 2, "nearest", true).expect("a plan");
    assert_eq!(plan.filter, ResampleFilter::Nearest);
    assert_eq!((plan.width, plan.height), (4, 4));
    assert_eq!(plan.window, rgba8_to_f16(&[9; 64]));
    let refusal = |w, h, f: &str, d| session.resize_plan(handle, w, h, f, d).err().expect("refused");
    assert!(refusal(0, 2, "x", false).contains("non-zero"));
    assert!(refusal(2, 2, "x", false).contains("GPU-only"));
    assert!(refusal(2, 2, "x", true).contains("unknown resample filter"));
    let id = session.finish_resize(handle, 2, 2, &rgba8_to_f16(&[5; 16])).expect("sized");
    assert_eq!(session.image(id.handle).expect("held").rgba.raw(), &[5; 16]);
    assert!(!session.image(id.handle).expect("held").depth_reduced);
    session.images.get_mut(&handle).expect("held").display = DisplayTreatment::Managed;
    let managed = session.finish_resize(handle, 1, 1, &rgba8_to_f16(&[5; 4])).expect("sized");
    assert_eq!(managed.display, 0, "a resize inherits its source's treatment");
    assert!(session.finish_resize(handle, 3, 3, &rgba8_to_f16(&[5; 16])).is_err());
}

#[test]
fn a_fill_lands_in_a_new_image_or_in_the_layer() {
    let (mut session, handle) = open();
    let flat = session.fill_prelude(handle, true).expect("device");
    assert!(!flat.layered && flat.mask.is_none());
    assert!(session.fill_prelude(handle, false).err().expect("refused").contains("GPU-only"));
    match session.land_fill(4, 4, vec![3; 64], false).expect("sized") {
        Landing::Registered(id) => assert_eq!(id.handle, 2),
        _ => panic!("a new image"),
    }
    session.layers_open(handle).expect("held");
    select_one(&mut session, handle);
    assert!(session.fill_prelude(handle, true).expect("device").layered);
    match session.land_fill(4, 4, vec![3; 64], true).expect("editable") {
        Landing::Edited(record) => {
            assert_eq!(record.label, "Fill");
            assert_eq!(record.region, Region::new(1, 2, 1, 1), "the selection bounds the damage");
        }
        _ => panic!("an edit"),
    }
    let doc = session.layers.as_mut().expect("open");
    doc.stack.set_locked(0, true).expect("in range");
    assert!(session.fill_prelude(handle, true).err().expect("locked").contains("is locked"));
    assert!(session.land_fill(4, 4, vec![3; 64], true).is_err());
}

#[test]
fn a_stack_opens_over_its_image_and_goes_with_it() {
    let (mut session, handle) = open();
    assert_eq!(session.layers_bound(), -1);
    session.layers_open(handle).expect("held");
    assert_eq!(session.layers_bound(), 1);
    session.layers.as_mut().expect("open").stack.add("Paint");
    session.layers_open(handle).expect("again");
    assert_eq!(session.layers.as_ref().expect("open").stack.len(), 2, "the stack is kept");
    session.free_image(handle);
    assert_eq!(session.layers_bound(), -1);
    assert!(session.layers_open(handle).is_err());
    let (mut other, handle) = open();
    other.layers_open(handle).expect("held");
    other.layers_close();
    assert_eq!(other.layers_bound(), -1);
}

#[test]
fn a_layered_file_opens_over_its_composite() {
    let (mut session, handle) = open();
    let plate = |len: usize| Plate {
        name: "p".to_string(),
        hidden: false,
        opacity: 255,
        blend_key: *b"norm",
        rgba: vec![1; len],
    };
    assert_eq!(session.layers_open_from_psd(handle, 4, 4, &vec![plate(64), plate(64)]), Ok(2));
    assert!(session.layers_open_from_psd(9, 4, 4, &vec![plate(64)]).is_err());
    assert_eq!(
        session.layers_open_from_psd(handle, 2, 2, &vec![plate(16)]),
        Err("PSD layer import is 2×2 but the ingested composite is 4×4".to_string())
    );
    assert!(session.layers_open_from_psd(handle, 4, 4, &vec![plate(60)]).is_err());
    assert!(session.layers_open_from_psd(handle, 4, 4, &Vec::new()).is_err());
    assert_eq!(session.layers.as_ref().expect("open").stack.len(), 2, "a refusal keeps the stack");
}

#[test]
fn a_mask_is_made_from_a_selection_only() {
    let (mut session, handle) = open();
    assert!(session.layers_mask_from_selection(0).unwrap_err().contains("no selection"));
    select_one(&mut session, handle);
    assert!(session.layers_mask_from_selection(0).unwrap_err().contains("no layer stack open"));
    session.layers_open(handle).expect("held");
    session.layers_mask_from_selection(0).expect("in range");
    assert!(session.layers.as_ref().expect("open").stack.has_mask(0));
    assert_eq!(session.layers_mask_from_selection(5), Err("unsupported: no layer 5".to_string()));
}

#[test]
fn a_smart_render_reads_the_source() {
    let (mut session, handle) = open();
    session.layers_open(handle).expect("held");
    assert!(session.smart_run(0, s(0.5), true).unwrap_err().contains("not a smart object"));
    session.layers.as_mut().expect("open").stack.make_smart(0).expect("pixels");
    let run = session.smart_run(0, s(0.5), true).expect("smart");
    assert_eq!((run.width, run.height), (4, 4));
    assert_eq!(run.window, rgba8_to_f16(&[9; 64]));
    for bad in [0.0, -1.0, 16.5, f32::NAN] {
        assert!(session.smart_run(0, s(bad), true).is_err(), "{bad}");
    }
    assert!(session.smart_run(0, s(16.0), true).is_ok());
    assert!(session.smart_run(0, s(0.5), false).is_err());
}

#[test]
fn a_letterbox_cuts_and_pads() {
    let small = [1u8, 1, 1, 1, 2, 2, 2, 2];
    assert_eq!(letterbox(&small, 2, 1, 1, 2), vec![1, 1, 1, 1, 0, 0, 0, 0]);
    assert_eq!(letterbox(&small, 1, 2, 2, 1), vec![1, 1, 1, 1, 0, 0, 0, 0]);
}

#[test]
fn adjustments_stack_or_bake() {
    let (mut session, handle) = open();
    assert!(session.layers_add_adjustment("a", AdjustParams::default()).is_err());
    assert!(session.layers_add_adjustment("a", bright()).unwrap_err().contains("no layer stack"));
    assert!(session.bake_run(&bright(), true).is_err());
    session.layers_open(handle).expect("held");
    assert!(session.bake_run(&AdjustParams::default(), true).unwrap_err().contains("identity"));
    assert!(session.bake_run(&bright(), false).unwrap_err().contains("GPU-only"));
    let (image, mask) = session.bake_run(&bright(), true).expect("device");
    assert_eq!((image.width, image.rgba.len()), (4, 64));
    assert!(mask.is_none());
    let record = session.finish_bake(vec![8; 64]).expect("editable");
    assert_eq!(record.label, "Bake adjustments");
    assert_eq!(record.region, Region::new(0, 0, 4, 4));
    let step = HistoryStep { scope: record.scope, label: record.label, pixels: record.before };
    assert_eq!(session.history_step(Some(step)), Ok("Bake adjustments".to_string()));
    assert_eq!(session.history_step(None), Ok(String::new()));
    assert_eq!(session.layers_add_adjustment("a", bright()), Ok(1));
    session.layers_close();
    assert!(session.history_step(None).is_err());
}

fn brush() -> StrokeParams {
    StrokeParams::defaults(StrokeTool::Brush)
}

#[test]
fn a_stroke_on_a_flat_image_becomes_a_new_one() {
    let (mut session, handle) = open();
    assert!(session.stroke_preview(true).is_err());
    assert!(session.stroke_commit(None).is_err());
    assert!(session.stroke_begin(9, brush(), true).is_err());
    assert!(session.stroke_begin(handle, brush(), false).unwrap_err().contains("GPU-only"));
    session.stroke_begin(handle, brush(), true).expect("device");
    match session.stroke_preview(false).expect("no stack") {
        Composite::Done(px) => assert_eq!(px.raw(), &[9; 64]),
        Composite::Fold(_) => panic!("no stack to fold"),
    }
    match session.stroke_commit(None).expect("in flight") {
        Landing::Registered(id) => assert_eq!(id.handle, 2),
        _ => panic!("a new image"),
    }
    assert!(session.stroke_commit(None).is_err());
}

#[test]
fn a_stroke_on_a_stack_paints_its_active_layer() {
    let (mut session, handle) = open();
    session.layers_open(handle).expect("held");
    session.stroke_begin(handle, brush(), true).expect("device");
    match session.stroke_commit(None).expect("in flight") {
        Landing::Untouched(id) => assert_eq!(id.handle, handle),
        _ => panic!("nothing landed"),
    }
    session.stroke_begin(handle, brush(), true).expect("device");
    let stroke = session.stroke.as_mut().expect("in flight");
    stroke.splice(Region::new(0, 0, 1, 1), &[200; 4], &[true]);
    match session.stroke_commit(Some(Region::new(0, 0, 1, 1))).expect("editable") {
        Landing::Edited(record) => assert_eq!(record.label, "Paint"),
        _ => panic!("an edit"),
    }
    let stack = &session.layers.as_ref().expect("open").stack;
    assert_eq!(stack.active().rgba.raw()[..5], [200, 200, 200, 200, 9]);
    let px = stack.active().rgba.clone();
    let id = session.finish_composite(px).expect("sized");
    assert_eq!(session.image(id.handle).expect("held").rgba.raw()[0], 200);
    session.stroke_begin(handle, brush(), true).expect("device");
    session.stroke_cancel();
    assert!(session.stroke.is_none());
}

#[test]
fn an_image_without_pixels_has_an_empty_first_level() {
    let mut session = Session::new();
    let id = session.ingest_rgba8(0, 3, Vec::new()).expect("no bytes are needed");
    let tile = session.image_tile_rgba8_level(id.handle, 0, 0, 0, 8).expect("held");
    assert!(tile.is_empty());
    assert!(session.image_tile_rgba8_level(id.handle, 256, 0, 0, 8).is_err());
}
