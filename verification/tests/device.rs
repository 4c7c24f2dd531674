//! The library's plans, run on a small reference device.

use half::f16;
use image_js::adjust::{adjust_rgba8, AdjustParams, BlackWhiteParams, Stage};
use image_js::blend::BlendMode;
use image_js::bridge::{f16_to_rgba8, rgba8_to_f16};
use image_js::composite::Composite;
use image_js::coverage::{Region, SelectionCoverage};
use image_js::fill::{fill_rgba8, FillPass, FillSpec, Generator, GradientKind};
use image_js::fold::{Fold, FoldAction};
use image_js::ingest::{straighten_crop_rgba8, DecodedImage};
use image_js::layers::{HistoryStep, LayerStack};
use image_js::pixels::Pixels;
use image_js::scalar::Scalar;
use image_js::stroke::{
    CloneSource, SampleAction, StrokePaint, StrokeParams, StrokeSample, StrokeSession, StrokeTool,
};
use std::sync::Arc;

fn s(v: f32) -> Scalar {
    Scalar { bits: v.to_bits() }
}

fn f(v: Scalar) -> f32 {
    f32::from_bits(v.bits)
}

fn share(pressure: Scalar) -> Scalar {
    pressure
}

fn product(a: Scalar, b: Scalar) -> Scalar {
    s(f(a) * f(b))
}

fn radius(sigma: Scalar) -> u32 {
    (f(sigma) * 3.0).ceil() as u32
}

// ── the device ──

fn texels(window: &[u8]) -> Vec<[f32; 4]> {
    let v = |px: &[u8], i: usize| f16::from_le_bytes([px[2 * i], px[2 * i + 1]]).to_f32();
    window.chunks_exact(8).map(|px| [v(px, 0), v(px, 1), v(px, 2), v(px, 3)]).collect()
}

fn window(texels: &[[f32; 4]]) -> Vec<u8> {
    texels.iter().flatten().flat_map(|v| f16::from_f32(*v).to_le_bytes()).collect()
}

fn map(w: &[u8], g: impl Fn([f32; 4]) -> [f32; 4]) -> Vec<u8> {
    window(&texels(w).into_iter().map(g).collect::<Vec<_>>())
}

fn associate([r, g, b, a]: [f32; 4]) -> [f32; 4] {
    [r * a, g * a, b * a, a]
}

fn dissociate([r, g, b, a]: [f32; 4]) -> [f32; 4] {
    if a > 0.0 {
        [r / a, g / a, b / a, a]
    } else {
        [0.0; 4]
    }
}

/// One premultiplied texel over another.
fn over(mode: BlendMode, below: [f32; 4], above: [f32; 4], opacity: f32) -> [f32; 4] {
    let (cb, cs) = (dissociate(below), dissociate(above));
    let (ab, a) = (below[3], above[3] * opacity);
    let mut out = [0.0; 4];
    for c in 0..3 {
        let mixed = match mode {
            BlendMode::Multiply => cb[c] * cs[c],
            _ => cs[c],
        };
        out[c] = a * (1.0 - ab) * cs[c] + a * ab * mixed + (1.0 - a) * ab * cb[c];
    }
    out[3] = a + ab * (1.0 - a);
    out
}

fn mix(a: [f32; 4], b: [f32; 4], m: f32) -> [f32; 4] {
    let mut out = [0.0; 4];
    for c in 0..4 {
        out[c] = a[c] + (b[c] - a[c]) * m;
    }
    out
}

fn strength(mask: Option<&SelectionCoverage>, i: usize) -> f32 {
    mask.map_or(1.0, |m| f32::from(m.data()[i]) / 255.0)
}

fn blend(
    mode: BlendMode,
    opacity: f32,
    below: &[u8],
    above: &[u8],
    mask: Option<&SelectionCoverage>,
) -> Vec<u8> {
    let out: Vec<[f32; 4]> = texels(below)
        .into_iter()
        .zip(texels(above))
        .enumerate()
        .map(|(i, (b, t))| mix(b, over(mode, b, t, opacity), strength(mask, i)))
        .collect();
    window(&out)
}

fn luma(p: [f32; 4]) -> f32 {
    0.3 * p[0] + 0.59 * p[1] + 0.11 * p[2]
}

fn run_stages(rgba: &[u8], stages: &[Stage], mask: Option<&SelectionCoverage>) -> Vec<u8> {
    let mut texels = texels(&rgba8_to_f16(rgba));
    for stage in stages {
        for (i, t) in texels.iter_mut().enumerate() {
            let [r, g, b, a] = *t;
            let point = |h: &dyn Fn(f32) -> f32| [h(r), h(g), h(b), a];
            let next = match *stage {
                Stage::BrightnessContrast { brightness, contrast } => {
                    point(&|v| (v - 0.5) * f(contrast) + 0.5 + f(brightness))
                }
                Stage::Exposure { ev } => point(&|v| v * f(ev).exp2()),
                Stage::Threshold { cut } => {
                    let v = if luma(*t) >= f(cut) { 1.0 } else { 0.0 };
                    [v, v, v, a]
                }
                Stage::BlackWhite { .. } => {
                    let v = luma(*t);
                    [v, v, v, a]
                }
                other => panic!("{other:?} is not run here"),
            };
            *t = mix(*t, next, strength(mask, i));
        }
    }
    f16_to_rgba8(&window(&texels))
}

fn adjust(
    image: &DecodedImage,
    params: &AdjustParams,
    mask: Option<&SelectionCoverage>,
) -> Vec<u8> {
    let ran = run_stages(image.rgba.raw(), &params.plan(&radius), mask);
    adjust_rgba8(image.rgba.raw(), params, ran, mask)
}

fn composite_over(stack: &LayerStack, stroke: Option<&Pixels>) -> Vec<u8> {
    let steps = match stack.composite(true, stroke).expect("composite") {
        Composite::Done(px) => return px.raw().to_vec(),
        Composite::Fold(steps) => steps,
    };
    let (mut fold, mut action) = Fold::begin(steps, stack.width(), stack.height());
    loop {
        let answer = match action {
            FoldAction::Premultiply { window } => map(&window, associate),
            FoldAction::Unpremultiply { window } => map(&window, dissociate),
            FoldAction::Blend { backdrop, top, blend: mode, opacity, coverage } => {
                blend(mode, f(opacity), &backdrop, &top, coverage.as_deref())
            }
            FoldAction::Adjust { rgba, params, coverage } => {
                run_stages(&rgba, &params.plan(&radius), coverage.as_deref())
            }
            FoldAction::Finish { rgba } => return rgba,
        };
        action = fold.land(answer);
    }
}

fn composite(stack: &LayerStack) -> Vec<u8> {
    composite_over(stack, None)
}

fn paint(image: &DecodedImage, spec: &FillSpec, mask: Option<&SelectionCoverage>) -> Vec<u8> {
    let plan = fill_rgba8(image, spec, mask, &product).expect("fill");
    let mut backdrop = plan.window.clone();
    let mut field = Vec::new();
    for pass in &plan.passes {
        match *pass {
            FillPass::Generate { generator } => {
                let n = plan.window.len() / 8;
                let painted: Vec<[f32; 4]> = (0..n)
                    .map(|i| match generator {
                        // Flat stops: the ramp does not matter.
                        Generator::Gradient { c0, .. } => c0.map(f),
                        Generator::Noise { seed, amount } => {
                            let h = (i as u32 ^ seed).wrapping_mul(0x9e37_79b9) >> 16;
                            let v = f(amount) * (h % 256) as f32 / 255.0;
                            [v, v, v, 1.0]
                        }
                        Generator::Solid { color } => color.map(f),
                    })
                    .collect();
                field = window(&painted);
            }
            FillPass::Premultiply => backdrop = map(&backdrop, associate),
            FillPass::Compose { opacity, masked } => {
                let through = if masked { mask } else { None };
                backdrop = blend(BlendMode::Normal, f(opacity), &backdrop, &field, through);
            }
            FillPass::Unpremultiply => backdrop = map(&backdrop, dissociate),
        }
    }
    f16_to_rgba8(&backdrop)
}

// ── strokes ──

/// The coverage that dabs build up.
struct Dabs {
    w: u32,
    h: u32,
    coverage: Vec<f32>,
    dirty: Option<(i32, i32, i32, i32)>,
    bounds: Option<(i32, i32, i32, i32)>,
    count: u64,
    carried: f32,
}

fn join(a: Option<(i32, i32, i32, i32)>, b: (i32, i32, i32, i32)) -> (i32, i32, i32, i32) {
    match a {
        None => b,
        Some(a) => (a.0.min(b.0), a.1.min(b.1), a.2.max(b.2), a.3.max(b.3)),
    }
}

fn region(b: (i32, i32, i32, i32)) -> Region {
    Region::new(b.0, b.1, (b.2 - b.0) as u32, (b.3 - b.1) as u32)
}

impl Dabs {
    fn new(w: u32, h: u32) -> Dabs {
        let coverage = vec![0.0; (w * h) as usize];
        Dabs { w, h, coverage, dirty: None, bounds: None, count: 0, carried: 0.0 }
    }

    fn stamp(&mut self, diameter: f32, hardness: f32, flow: f32, x: f32, y: f32) {
        let r = diameter / 2.0;
        let (x0, x1) = (((x - r).floor() as i32).max(0), ((x + r).ceil() as i32).min(self.w as i32));
        let (y0, y1) = (((y - r).floor() as i32).max(0), ((y + r).ceil() as i32).min(self.h as i32));
        if x0 >= x1 || y0 >= y1 {
            return;
        }
        for py in y0..y1 {
            for px in x0..x1 {
                let (dx, dy) = (px as f32 + 0.5 - x, py as f32 + 0.5 - y);
                let d = (dx * dx + dy * dy).sqrt() / r.max(0.001);
                let soft = ((1.0 - d) / (1.0 - hardness).max(0.05)).clamp(0.0, 1.0);
                let c = &mut self.coverage[(py as u32 * self.w + px as u32) as usize];
                *c += (1.0 - *c) * soft * flow;
            }
        }
        self.count += 1;
        self.dirty = Some(join(self.dirty, (x0, y0, x1, y1)));
        self.bounds = Some(join(self.bounds, (x0, y0, x1, y1)));
    }

    fn walk(&mut self, a: StrokeSample, b: StrokeSample, step: f32) -> Vec<[f32; 3]> {
        let (dx, dy) = (f(b.x) - f(a.x), f(b.y) - f(a.y));
        let length = (dx * dx + dy * dy).sqrt();
        let mut out = Vec::new();
        let mut at = step - self.carried;
        while at <= length {
            let t = at / length;
            let p = f(a.pressure) + (f(b.pressure) - f(a.pressure)) * t;
            out.push([f(a.x) + dx * t, f(a.y) + dy * t, p]);
            at += step;
        }
        self.carried = length - (at - step);
        out
    }
}

/// The dabs that one sample lays: position and pressure.
fn plan(st: &mut StrokeSession, dabs: &mut Dabs, x: f32, y: f32, pressure: f32) -> Vec<[f32; 3]> {
    let offset = |anchor: Scalar, at: Scalar| (f(anchor) - f(at)).round() as i64;
    let step = f(st.params().step_px(&product));
    let sample = StrokeSample { x: s(x), y: s(y), pressure: s(pressure) };
    match st.extend(sample, &offset) {
        SampleAction::Ignore => Vec::new(),
        SampleAction::Dot { at } => vec![[f(at.x), f(at.y), f(at.pressure)]],
        SampleAction::Segment { from, to } => dabs.walk(from, to, step),
    }
}

/// Take one sample; whether pixels changed.
fn extend(st: &mut StrokeSession, dabs: &mut Dabs, x: f32, y: f32, pressure: f32) -> bool {
    let p = *st.params();
    let stamps = plan(st, dabs, x, y, pressure);
    for [dx, dy, pr] in stamps {
        let tip = p.tip_at(s(pr), &share, &product);
        dabs.stamp(f(tip.diameter), f(tip.hardness), f(p.flow_at(s(pr), &share, &product)), dx, dy);
    }
    let Some(dirty) = dabs.dirty.take() else { return false };
    let Some(work) = st.composite(region(dirty)) else { return false };
    let selection = st.selection();
    let reach = |x: u32, y: u32| {
        let i = (y * dabs.w + x) as usize;
        dabs.coverage[i] * strength(selection.as_deref(), i)
    };
    let area = work.region;
    let correction = match &work.paint {
        StrokePaint::Sample { heal: true, .. } => {
            let covered = |x: u32, y: u32| reach(x, y) > 0.0;
            let difference = |a: u8, b: u8| s((f32::from(a) - f32::from(b)) / 255.0);
            let mean = |v: &Vec<Scalar>| s(v.iter().map(|x| f(*x)).sum::<f32>() / v.len() as f32);
            let average = |a: Scalar, b: Scalar, c: Scalar, d: Scalar| {
                s((f(a) + f(b) + f(c) + f(d)) * 0.25)
            };
            let narrow = |v: Scalar| f16::from_f32(f(v)).to_bits();
            st.heal_field(area, &covered, &difference, &mean, &average, &narrow)
        }
        _ => None,
    };
    let shift = correction.map(|c| texels(&c));
    let opacity = f(p.opacity);
    let (mut out, mut covered) = (Vec::new(), Vec::new());
    for (i, base) in texels(&work.base).into_iter().enumerate() {
        let px = area.x as u32 + (i as u32 % area.w);
        let py = area.y as u32 + (i as u32 / area.w);
        let m = reach(px, py) * opacity;
        covered.push(m > 0.0);
        out.push(match &work.paint {
            StrokePaint::Erase => [base[0], base[1], base[2], base[3] * (1.0 - m)],
            StrokePaint::Paint { color, .. } => {
                let top = associate(color.map(f));
                let below = associate(base);
                dissociate(mix(below, over(BlendMode::Normal, below, top, 1.0), m))
            }
            StrokePaint::Sample { source, .. } => {
                let mut top = texels(source)[i];
                if let Some(field) = &shift {
                    for c in 0..3 {
                        top[c] += field[i][c];
                    }
                }
                let below = associate(base);
                dissociate(mix(below, over(BlendMode::Normal, below, associate(top), 1.0), m))
            }
        });
    }
    st.splice(area, &f16_to_rgba8(&window(&out)), &covered);
    true
}

fn defaults(tool: StrokeTool) -> StrokeParams {
    StrokeParams::defaults(tool)
}

fn begin(image: &DecodedImage, p: StrokeParams) -> (StrokeSession, Dabs) {
    let st = StrokeSession::begin(1, image, p, None).expect("begin");
    (st, Dabs::new(image.width, image.height))
}

fn run_stroke(
    image: &DecodedImage,
    p: StrokeParams,
    selection: Option<Arc<SelectionCoverage>>,
    samples: &[(f32, f32, f32)],
) -> Vec<u8> {
    let mut st = StrokeSession::begin(1, image, p, selection).expect("begin");
    let mut dabs = Dabs::new(image.width, image.height);
    for &(x, y, pr) in samples {
        extend(&mut st, &mut dabs, x, y, pr);
    }
    st.commit()
}

// ── fixtures ──

fn px(w: u32, h: u32, v: u8) -> Arc<Vec<u8>> {
    Arc::new(vec![v; (w * h * 4) as usize])
}

fn stack(w: u32, h: u32) -> LayerStack {
    LayerStack::from_image(w, h, px(w, h, 128)).expect("valid")
}

fn fill_active(st: &mut LayerStack, label: &str, bytes: Vec<u8>) {
    let all = Region::new(0, 0, st.width(), st.height());
    st.edit_active(label, all, Pixels::from_vec(bytes)).expect("unlocked");
}

fn bright(v: f32) -> AdjustParams {
    AdjustParams { brightness: s(v), ..Default::default() }
}

fn left_half(w: u32, h: u32) -> SelectionCoverage {
    let data = (0..w * h).map(|i| if i % w < w / 2 { 255 } else { 0 }).collect();
    SelectionCoverage::from_data(w, h, data).expect("sized")
}

fn empty(w: u32, h: u32) -> Arc<SelectionCoverage> {
    Arc::new(SelectionCoverage::from_data(w, h, vec![0; (w * h) as usize]).expect("sized"))
}

fn ext_image() -> DecodedImage {
    DecodedImage::from_rgba8(2, 1, vec![128, 128, 128, 255, 40, 90, 200, 255]).expect("valid")
}

fn ramp(w: u32, h: u32) -> DecodedImage {
    let mut rgba = Vec::new();
    for y in 0..h {
        for x in 0..w {
            rgba.extend_from_slice(&[
                (40 + (x * 5) % 200) as u8,
                (60 + (y * 7) % 180) as u8,
                (90 + ((x + y) * 3) % 150) as u8,
                255,
            ]);
        }
    }
    DecodedImage::from_rgba8(w, h, rgba).expect("valid")
}

fn two_tone(w: u32, h: u32) -> DecodedImage {
    let mut rgba = Vec::new();
    for _y in 0..h {
        for x in 0..w {
            let v = if x < w / 2 { 40u8 } else { 200u8 };
            rgba.extend_from_slice(&[v, v, v, 255]);
        }
    }
    DecodedImage::from_rgba8(w, h, rgba).expect("valid")
}

fn near(got: u8, want: i32, slack: i32) -> bool {
    (i32::from(got) - want).abs() <= slack
}

const PATH: &[(f32, f32, f32)] = &[
    (6.0, 8.0, 0.5),
    (18.0, 11.0, 0.8),
    (31.0, 22.0, 1.0),
    (44.0, 30.0, 0.6),
    (52.0, 46.0, 0.3),
];

// ── layers ──

#[test]
fn image_editor_layers_a_smart_object_composites_like_any_other() {
    let mut st = stack(16, 16);
    let plain = composite(&st);
    st.make_smart(0).expect("convert");
    assert_eq!(composite(&st), plain, "conversion alone changes no pixel");
}

#[test]
fn image_editor_layers_an_adjustment_layer_changes_the_composite() {
    let mut st = stack(16, 16);
    let base = composite(&st);
    st.add_adjustment("Brighten", bright(0.25));
    let out = composite(&st);
    assert_ne!(out, base, "the adjustment layer transformed the backdrop beneath it");
    assert!(out[0] > base[0], "and brightened it: {} should exceed {}", out[0], base[0]);
}

#[test]
fn image_editor_layers_removing_an_adjustment_layer_restores_exactly() {
    let mut st = stack(16, 16);
    let base = composite(&st);
    let at = st.add_adjustment("Brighten", bright(0.4));
    let _ = composite(&st);
    st.remove(at).expect("remove");
    assert_eq!(composite(&st), base, "removing an adjustment layer restores the original exactly");
}

#[test]
fn image_editor_layers_hiding_an_adjustment_layer_is_the_identity() {
    let mut st = stack(16, 16);
    let base = composite(&st);
    let at = st.add_adjustment("Brighten", bright(0.4));
    st.set_visible(at, false).expect("hide");
    assert_eq!(composite(&st), base, "a hidden adjustment does nothing");
}

#[test]
fn image_editor_layers_a_masked_adjustment_applies_only_inside_the_mask() {
    let mut st = stack(16, 16);
    let base = composite(&st);
    let at = st.add_adjustment("Brighten", bright(0.5));
    st.set_mask(at, Arc::new(left_half(16, 16))).expect("mask it");
    let out = composite(&st);
    let at_px = |buf: &[u8], x: usize, y: usize| buf[(y * 16 + x) * 4];
    assert!(at_px(&out, 2, 8) > at_px(&base, 2, 8), "inside the mask the adjustment applied");
    assert_eq!(at_px(&out, 13, 8), at_px(&base, 13, 8), "outside it the pixels are untouched");
}

#[test]
fn image_editor_layers_a_transparent_layer_on_top_leaves_the_backdrop_alone() {
    let mut st = stack(16, 16);
    let base = st.active().rgba.raw().to_vec();
    st.add("Empty");
    assert_eq!(composite(&st), base, "source-over with a fully transparent source is the identity");
}

#[test]
fn image_editor_layers_a_zero_mask_hides_the_layer_it_masks() {
    let mut st = stack(16, 16);
    let base = st.active().rgba.raw().to_vec();
    st.add("Cover");
    fill_active(&mut st, "fill", vec![255; 16 * 16 * 4]);
    st.set_mask(1, empty(16, 16)).expect("attach a zero mask");
    assert_eq!(composite(&st), base, "a zero-coverage mask makes the layer contribute nothing");
}

#[test]
fn image_editor_layers_a_disabled_mask_stops_hiding_it() {
    let mut st = stack(16, 16);
    st.add("Cover");
    fill_active(&mut st, "fill", vec![255; 16 * 16 * 4]);
    st.set_mask(1, empty(16, 16)).expect("attach");
    st.set_mask_enabled(1, false).expect("disable");
    assert!(
        composite(&st).iter().all(|&b| b == 255),
        "with the mask disabled the opaque layer covers again"
    );
}

#[test]
fn image_editor_layers_a_half_mask_covers_half_the_canvas() {
    let mut st = stack(16, 16);
    let base = st.active().rgba.raw().to_vec();
    st.add("Cover");
    fill_active(&mut st, "fill", vec![255; 16 * 16 * 4]);
    st.set_mask(1, Arc::new(left_half(16, 16))).expect("attach");
    let out = composite(&st);
    let at = |x: usize, y: usize| out[(y * 16 + x) * 4];
    assert_eq!(at(2, 8), 255, "inside the mask the cover layer shows");
    assert_eq!(at(13, 8), base[(8 * 16 + 13) * 4], "outside it the backdrop survives untouched");
}

#[test]
fn image_editor_layers_an_opaque_layer_on_top_hides_the_one_below() {
    let mut st = stack(16, 16);
    st.add("Cover");
    fill_active(&mut st, "fill", vec![255; 16 * 16 * 4]);
    assert!(composite(&st).iter().all(|&b| b == 255));
}

#[test]
fn image_editor_layers_opacity_rides_the_compose_param_block() {
    let mut st = LayerStack::from_image(8, 8, px(8, 8, 0)).expect("valid");
    fill_active(&mut st, "base", [0u8, 0, 0, 255].repeat(64));
    st.add("White");
    fill_active(&mut st, "fill", vec![255; 256]);
    st.set_opacity(1, s(0.5)).expect("in range");
    for t in composite(&st).chunks_exact(4) {
        assert!(near(t[0], 128, 2), "50% white over black should be ~128, got {}", t[0]);
        assert_eq!(t[3], 255, "and stay opaque");
    }
}

#[test]
fn image_editor_layers_multiply_darkens_through_the_registered_kernel() {
    let mut st = LayerStack::from_image(8, 8, px(8, 8, 255)).expect("valid");
    st.add("Half");
    fill_active(&mut st, "fill", [128u8, 128, 128, 255].repeat(64));
    st.set_blend(1, "multiply").expect("registered");
    for t in composite(&st).chunks_exact(4) {
        assert!(near(t[0], 128, 2), "white × 50% grey is 50% grey, got {}", t[0]);
    }
}

#[test]
fn image_editor_layers_the_stroke_override_previews_through_the_stack() {
    let mut st = stack(8, 8);
    st.add("Paint");
    let white = Pixels::from_vec(vec![255; 256]);
    let out = composite_over(&st, Some(&white));
    assert!(out.iter().all(|&b| b == 255), "the override composited");
    assert!(st.active().rgba.raw().iter().all(|&b| b == 0), "the layer itself was never touched");
}

#[test]
fn image_editor_layers_a_stroke_lands_in_the_active_layer_and_undoes() {
    let (w, h) = (64u32, 64u32);
    let photo = [40u8, 90, 160, 255].repeat((w * h) as usize);
    let mut st = LayerStack::from_image(w, h, Arc::new(photo.clone())).expect("valid");
    st.add("Paint");
    assert_eq!(st.active_index(), 1);

    let mut p = defaults(StrokeTool::Brush);
    p.color = [s(1.0), s(0.0), s(0.0), s(1.0)];
    p.hardness = s(1.0);
    let base = st.active().rgba.clone();
    let mut stroke = StrokeSession::begin_on(1, w, h, Arc::new(base.raw().to_vec()), p, None).expect("begin");
    let mut dabs = Dabs::new(w, h);
    extend(&mut stroke, &mut dabs, 32.0, 32.0, 1.0);
    let damage = region(dabs.bounds.expect("a dot has bounds"));
    let painted = stroke.commit();

    let before = composite(&st);
    let record = st.edit_active("Paint", damage, Pixels::from_vec(painted.clone())).expect("edit");
    assert_eq!(st.layers()[0].rgba.raw(), &photo[..], "the layer below is untouched");
    let out = composite(&st);
    let at = |buf: &[u8], x: u32, y: u32| {
        let i = ((y * w + x) * 4) as usize;
        [buf[i], buf[i + 1], buf[i + 2], buf[i + 3]]
    };
    let centre = at(&out, 32, 32);
    assert!(
        centre[0] > 200 && centre[1] < 60 && centre[2] < 60,
        "the dab should read red over the photo, got {centre:?}"
    );
    assert_eq!(at(&out, 0, 0), at(&photo, 0, 0), "the corner is the photo");

    let scope = record.scope;
    let back = HistoryStep { scope, label: record.label, pixels: record.before };
    assert_eq!(st.undo(back).as_deref(), Some("Paint"));
    assert_eq!(composite(&st), before, "undo returns the composite byte for byte");
    let again =
        HistoryStep { scope, label: "Paint".to_string(), pixels: Pixels::from_vec(painted) };
    assert_eq!(st.redo(again).as_deref(), Some("Paint"));
    assert_eq!(composite(&st), out);
}

/// An opaque backdrop, and a base on top that is opaque on the left only.
fn clip_fixture(w: u32, h: u32) -> LayerStack {
    let mut st = LayerStack::from_image(w, h, px(w, h, 128)).expect("valid");
    fill_active(&mut st, "backdrop", [90u8, 90, 90, 255].repeat((w * h) as usize));
    st.add("Base");
    let mut rgba = Vec::new();
    for _y in 0..h {
        for x in 0..w {
            rgba.extend_from_slice(&[200, 200, 200, if x < w / 2 { 255 } else { 0 }]);
        }
    }
    fill_active(&mut st, "base", rgba);
    st
}

#[test]
fn image_editor_layers_a_clipped_adjustment_is_confined_to_its_base() {
    let mut unclipped = clip_fixture(16, 8);
    unclipped.add_adjustment("Brighten", bright(0.5));
    let free = composite(&unclipped);
    let mut st = clip_fixture(16, 8);
    let at = st.add_adjustment("Brighten", bright(0.5));
    st.set_clipped(at, true).expect("clip");
    let clipped = composite(&st);
    let value = |v: &[u8], x: usize| i32::from(v[x * 4]);
    assert!(
        (value(&clipped, 2) - value(&free, 2)).abs() <= 2,
        "inside the base: {} vs {}",
        value(&clipped, 2),
        value(&free, 2)
    );
    assert!(
        value(&free, 12) > value(&clipped, 12) + 5,
        "outside the base the clip must confine the adjustment: clipped {}, free {}",
        value(&clipped, 12),
        value(&free, 12)
    );
}

#[test]
fn image_editor_layers_a_clipped_layer_with_no_base_contributes_nothing() {
    let mut st = stack(16, 8);
    st.set_clipped(0, true).expect("clip");
    let at = st.add_adjustment("Brighten", bright(0.5));
    st.set_clipped(at, true).expect("clip the adjustment too");
    assert!(
        composite(&st).chunks_exact(4).all(|p| p[3] == 0),
        "everything was clipped to nothing, so nothing shows"
    );
}

// ── adjustments and fills ──

#[test]
fn image_editor_ingest_adjust_exposure_doubles_on_gpu() {
    let image =
        DecodedImage::from_rgba8(2, 1, vec![10, 30, 50, 255, 20, 40, 60, 255]).expect("valid");
    let params = AdjustParams { exposure_ev: s(1.0), ..Default::default() };
    let out = adjust(&image, &params, None);
    assert_eq!(out.len(), image.rgba.len());
    for (i, (&got, &src)) in out.iter().zip(image.rgba.raw()).enumerate() {
        let want = if i % 4 == 3 { i32::from(src) } else { (i32::from(src) * 2).min(255) };
        assert!(near(got, want, 2), "byte {i}: got {got}, expected ~{want}");
    }
}

#[test]
fn image_editor_adjust_threshold_runs_through_the_chain_on_gpu() {
    let params = AdjustParams { threshold: Some(s(0.5)), ..Default::default() };
    let out = adjust(&ext_image(), &params, None);
    assert_eq!(&out[0..3], &[255, 255, 255], "px0 above the cut");
    assert_eq!(&out[4..7], &[0, 0, 0], "px1 below the cut");
    assert_eq!(out[3], 255, "alpha preserved");
}

#[test]
fn image_editor_adjust_black_white_runs_through_the_chain_on_gpu() {
    let params = AdjustParams {
        black_white: BlackWhiteParams { enabled: true, ..AdjustParams::default().black_white },
        ..Default::default()
    };
    for t in adjust(&ext_image(), &params, None).chunks_exact(4) {
        assert!(
            near(t[0], i32::from(t[1]), 1) && near(t[1], i32::from(t[2]), 1),
            "the six-weight mix splats one gray, got {t:?}"
        );
    }
}

#[test]
fn image_selection_extended_stage_is_masked_like_the_others() {
    let image = ext_image();
    let cov = SelectionCoverage::from_data(2, 1, vec![255, 0]).expect("2 px coverage");
    let params = AdjustParams { threshold: Some(s(0.5)), ..Default::default() };
    let out = adjust(&image, &params, Some(&cov));
    assert_eq!(&out[0..3], &[255, 255, 255], "selected pixel thresholded");
    for (i, (&got, &src)) in out[4..8].iter().zip(&image.rgba.raw()[4..8]).enumerate() {
        assert!(near(got, i32::from(src), 2), "byte {i} must survive: got {got}, was {src}");
    }
}

fn flat(c: [f32; 4]) -> FillSpec {
    FillSpec::Gradient { kind: GradientKind::Linear, c0: c.map(s), c1: c.map(s) }
}

#[test]
fn image_editor_generate_gradient_fills_through_the_selection() {
    let image = ext_image();
    let cov = SelectionCoverage::from_data(2, 1, vec![255, 0]).expect("2 px coverage");
    let out = paint(&image, &flat([1.0, 0.0, 0.0, 1.0]), Some(&cov));
    assert_eq!(out.len(), image.rgba.len());
    assert!(
        out[0] > 250 && out[1] < 5 && out[2] < 5,
        "the selected pixel took the fill, got {:?}",
        &out[0..4]
    );
    for (i, (&got, &src)) in out[4..8].iter().zip(&image.rgba.raw()[4..8]).enumerate() {
        assert!(near(got, i32::from(src), 2), "byte {i} must survive: got {got}, was {src}");
    }
}

#[test]
fn image_editor_generate_noise_fills_the_whole_image_without_a_selection() {
    let image = DecodedImage::from_rgba8(8, 8, vec![0u8; 256]).expect("valid");
    let spec = FillSpec::Noise { amount: s(1.0), seed: 7 };
    let out = paint(&image, &spec, None);
    let mut seen: Vec<u8> = out.chunks_exact(4).map(|p| p[0]).collect();
    seen.sort_unstable();
    seen.dedup();
    assert!(seen.len() > 4, "deterministic noise must vary across texels");
    assert_eq!(out, paint(&image, &spec, None), "same seed, same noise");
}

#[test]
fn image_editor_generate_fill_composites_through_the_premultiply_bracket() {
    let image = DecodedImage::from_rgba8(1, 1, vec![255, 0, 0, 128]).expect("valid");
    let out = paint(&image, &flat([0.0, 0.0, 1.0, 0.5]), None);
    for (i, (&got, want)) in out.iter().zip([85, 0, 170, 191]).enumerate() {
        assert!(near(got, want, 2), "channel {i}: got {got}, expected {want} ({out:?})");
    }
}

#[test]
fn image_editor_generate_fill_leaves_an_opaque_backdrop_on_the_fast_path() {
    let image = DecodedImage::from_rgba8(1, 1, vec![255, 0, 0, 255]).expect("valid");
    let out = paint(&image, &flat([0.0, 0.0, 1.0, 1.0]), None);
    for (i, (&got, want)) in out.iter().zip([0, 0, 255, 255]).enumerate() {
        assert!(near(got, want, 2), "channel {i}: got {got}, expected {want} ({out:?})");
    }
}

/// The image turned about the centre of a rectangle, nearest pixel, clamped.
fn rotate(image: &DecodedImage, cut: (u32, u32, u32, u32), degrees: f32) -> Vec<u8> {
    let (cx, cy) = (cut.0 as f32 + cut.2 as f32 / 2.0, cut.1 as f32 + cut.3 as f32 / 2.0);
    let (sin, cos) = degrees.to_radians().sin_cos();
    let mut out = Vec::new();
    for y in 0..image.height {
        for x in 0..image.width {
            let (dx, dy) = (x as f32 + 0.5 - cx, y as f32 + 0.5 - cy);
            let sx = (cx + dx * cos - dy * sin).floor().clamp(0.0, image.width as f32 - 1.0);
            let sy = (cy + dx * sin + dy * cos).floor().clamp(0.0, image.height as f32 - 1.0);
            let i = ((sy as u32 * image.width + sx as u32) * 4) as usize;
            out.extend_from_slice(&image.rgba.raw()[i..i + 4]);
        }
    }
    out
}

#[test]
fn image_editor_crop_straighten_180_degrees_reverses_the_full_frame() {
    let mut bytes = vec![0u8; 32];
    for i in 0..8 {
        bytes[i * 4..i * 4 + 4].copy_from_slice(&[(i * 30) as u8, 10, 20, 255]);
    }
    let image = DecodedImage::from_rgba8(4, 2, bytes.clone()).expect("valid");
    let turned = rotate(&image, (0, 0, 4, 2), 180.0);
    let out = straighten_crop_rgba8(&image, turned, 0, 0, 4, 2).expect("180° straighten");
    assert_eq!((out.width, out.height), (4, 2));
    for i in 0..8 {
        let (got, want) = (out.rgba.raw()[i * 4], bytes[(7 - i) * 4]);
        assert!(near(got, i32::from(want), 3), "pixel {i}: got {got}, expected ~{want}");
    }
}

#[test]
fn image_editor_crop_straighten_small_angle_keeps_a_flat_field_flat() {
    let image = DecodedImage::from_rgba8(16, 16, vec![77u8; 1024]).expect("valid");
    let turned = rotate(&image, (2, 2, 12, 12), 7.5);
    let out = straighten_crop_rgba8(&image, turned, 2, 2, 12, 12).expect("7.5° straighten");
    assert_eq!((out.width, out.height), (12, 12));
    for (i, &b) in out.rgba.raw().iter().enumerate() {
        assert!(near(b, 77, 2), "byte {i}: got {b}, a flat field must survive rotation");
    }
}

// ── strokes ──

#[test]
fn image_editor_paint_the_incremental_stroke_matches_a_replay() {
    let image = ramp(64, 64);
    let a = run_stroke(&image, defaults(StrokeTool::Brush), None, PATH);
    let b = run_stroke(&image, defaults(StrokeTool::Brush), None, PATH);
    assert_eq!(a, b, "a replayed stroke must be byte-identical");
    assert_ne!(a, image.rgba.raw().to_vec(), "the stroke actually painted");
}

#[test]
fn image_editor_paint_a_drag_interpolates_at_the_spacing_step() {
    let image = ramp(64, 64);
    let (mut st, mut walk) = begin(&image, defaults(StrokeTool::Brush));
    plan(&mut st, &mut walk, 0.0, 0.0, 1.0);
    // A 24 px tip at quarter spacing steps 6 px: a 60 px jump lays ten dabs.
    let dabs = plan(&mut st, &mut walk, 60.0, 0.0, 1.0);
    assert_eq!(dabs.len(), 10);
    assert!((dabs[0][0] - 6.0).abs() < 1e-4);
    assert!((dabs[9][0] - 60.0).abs() < 1e-4);
}

#[test]
fn image_editor_paint_the_spacing_walk_carries_across_samples() {
    let image = ramp(64, 64);
    let (mut st, mut walk) = begin(&image, defaults(StrokeTool::Brush));
    plan(&mut st, &mut walk, 0.0, 0.0, 1.0);
    // Four 2 px nudges bank 8 px against a 6 px step: exactly one dab.
    let mut total = 0;
    for i in 1..=4 {
        total += plan(&mut st, &mut walk, i as f32 * 2.0, 0.0, 1.0).len();
    }
    assert_eq!(total, 1, "no clumping at every pointer event");
}

#[test]
fn image_editor_paint_a_fast_drag_matches_the_same_path_sampled_finely() {
    let image = ramp(64, 64);
    let coarse = run_stroke(&image, defaults(StrokeTool::Brush), None, PATH);
    let mut fine = vec![PATH[0]];
    for pair in PATH.windows(2) {
        let (x0, y0, p0) = pair[0];
        let (x1, y1, p1) = pair[1];
        for i in 1..=8 {
            let t = i as f32 / 8.0;
            fine.push((x0 + (x1 - x0) * t, y0 + (y1 - y0) * t, p0 + (p1 - p0) * t));
        }
    }
    let dense = run_stroke(&image, defaults(StrokeTool::Brush), None, &fine);
    let mut worst = 0i32;
    for (a, b) in coarse.iter().zip(dense.iter()) {
        worst = worst.max((i32::from(*a) - i32::from(*b)).abs());
    }
    assert!(worst <= 6, "a fast drag diverged from the same path sampled finely by {worst}/255");
}

#[test]
fn image_editor_paint_a_stroke_cannot_paint_outside_the_selection() {
    let image = ramp(64, 64);
    let sel = Arc::new(left_half(64, 64));
    let painted = run_stroke(&image, defaults(StrokeTool::Brush), Some(sel), PATH);
    let mut inside = 0;
    for y in 0..64usize {
        for x in 0..64usize {
            let i = (y * 64 + x) * 4;
            let same = painted[i..i + 4] == image.rgba.raw()[i..i + 4];
            if x >= 32 {
                assert!(same, "({x},{y}) is outside the selection but changed");
            } else if !same {
                inside += 1;
            }
        }
    }
    assert!(inside > 100, "only {inside} pixels painted inside the selection");
}

#[test]
fn image_editor_paint_an_eraser_stroke_takes_alpha_and_keeps_colour() {
    let image = ramp(64, 64);
    let erased = run_stroke(&image, defaults(StrokeTool::Eraser), None, PATH);
    let at = |buf: &[u8], x: usize, y: usize| {
        let i = (y * 64 + x) * 4;
        [buf[i], buf[i + 1], buf[i + 2], buf[i + 3]]
    };
    let hit = (0..64).flat_map(|y| (0..64).map(move |x| (x, y))).find(|&(x, y)| {
        at(&erased, x, y)[3] < 32
    });
    let (hx, hy) = hit.expect("the eraser stroke must fully clear somewhere");
    assert_eq!(
        at(&erased, hx, hy)[..3],
        at(image.rgba.raw(), hx, hy)[..3],
        "an erased pixel keeps its colour"
    );
    assert_eq!(at(&erased, 63, 0), at(image.rgba.raw(), 63, 0));
}

#[test]
fn image_editor_paint_a_click_paints_a_dot_and_a_cancel_leaves_no_trace() {
    let image = ramp(32, 32);
    let (mut st, mut dabs) = begin(&image, defaults(StrokeTool::Brush));
    assert!(extend(&mut st, &mut dabs, 16.0, 16.0, 1.0));
    assert_eq!(dabs.count, 1);
    let bounds = region(dabs.bounds.expect("a dot has bounds"));
    assert!(bounds.w >= 24 && bounds.h >= 24, "a 24 px tip: {bounds:?}");
    assert_ne!(st.pixels(), image.rgba.raw(), "the dot landed");
    drop(st);
    assert_eq!(image.rgba.raw(), ramp(32, 32).rgba.raw(), "the base pixels are still the base");
}

#[test]
fn image_editor_paint_a_stroke_entirely_off_canvas_is_a_clean_no_op() {
    let image = ramp(32, 32);
    let (mut st, mut dabs) = begin(&image, defaults(StrokeTool::Brush));
    assert!(!extend(&mut st, &mut dabs, 500.0, 500.0, 1.0));
    assert!(dabs.bounds.is_none());
    assert_eq!(st.commit(), image.rgba.raw().to_vec());
}

fn sized(tool: StrokeTool, size: f32) -> StrokeParams {
    StrokeParams { size: s(size), ..defaults(tool) }
}

#[test]
fn image_editor_clone_copies_pixels_across_the_image() {
    let image = two_tone(32, 16);
    let (mut st, mut dabs) = begin(&image, sized(StrokeTool::Clone, 6.0));
    st.set_clone_source(CloneSource { x: s(24.0), y: s(8.0), aligned: true });
    extend(&mut st, &mut dabs, 8.0, 8.0, 1.0);
    let at = |x: usize, y: usize| st.pixels()[(y * 32 + x) * 4];
    assert!(at(8, 8) > 150, "the dab centre took the LIGHT source, got {}", at(8, 8));
    assert_eq!(at(0, 0), 40, "far corner untouched");
}

#[test]
fn image_editor_heal_lands_closer_to_the_destination_than_clone_does() {
    let image = two_tone(64, 32);
    let centre = |tool: StrokeTool| {
        let (mut st, mut dabs) = begin(&image, sized(tool, 6.0));
        st.set_clone_source(CloneSource { x: s(48.0), y: s(16.0), aligned: true });
        extend(&mut st, &mut dabs, 16.0, 16.0, 1.0);
        i32::from(st.pixels()[(16 * 64 + 16) * 4])
    };
    let (clone_v, heal_v) = (centre(StrokeTool::Clone), centre(StrokeTool::Heal));
    let dest = 40i32;
    assert!(
        (heal_v - dest).abs() < (clone_v - dest).abs(),
        "heal ({heal_v}) should sit nearer the destination tone ({dest}) than clone ({clone_v})"
    );
}

#[test]
fn image_editor_heal_says_nothing_rather_than_guessing_at_an_edge() {
    let image = two_tone(32, 16);
    let (mut st, mut dabs) = begin(&image, sized(StrokeTool::Heal, 6.0));
    st.set_clone_source(CloneSource { x: s(40.0), y: s(8.0), aligned: true });
    // It must not panic, and it must not paint something invented.
    extend(&mut st, &mut dabs, 24.0, 8.0, 1.0);
}

#[test]
fn image_editor_heal_cancels_a_gradient_mismatch_not_just_a_uniform_one() {
    let (w, h) = (96u32, 32u32);
    let mut rgba = Vec::new();
    for _y in 0..h {
        for x in 0..w {
            let v = if x < 64 { (x * 3) as u8 } else { 30u8 };
            rgba.extend_from_slice(&[v, v, v, 255]);
        }
    }
    let image = DecodedImage::from_rgba8(w, h, rgba).expect("valid");
    let p = StrokeParams { hardness: s(1.0), ..sized(StrokeTool::Heal, 14.0) };
    let (mut st, mut dabs) = begin(&image, p);
    st.set_clone_source(CloneSource { x: s(80.0), y: s(16.0), aligned: true });
    extend(&mut st, &mut dabs, 32.0, 16.0, 1.0);
    let at = |x: u32| i32::from(st.pixels()[((16 * w + x) * 4) as usize]);
    let want = |x: u32| (x * 3) as i32;
    let (l, r) = (28u32, 36u32);
    assert!(
        at(r) - at(l) > (want(r) - want(l)) / 2,
        "the healed patch must ramp like its destination: {} and {}",
        at(l),
        at(r)
    );
    assert!(
        (at(l) - want(l)).abs() < 24 && (at(r) - want(r)).abs() < 24,
        "at {l} got {} want {}; at {r} got {} want {}",
        at(l),
        want(l),
        at(r),
        want(r)
    );
}
