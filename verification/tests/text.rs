use image_js::scalar::Scalar;
use image_js::text::{
    design_units, lay_out, place_glyphs, rasterize_run, split_lines, Glyph, LineAlign, RasterRun, RunStyle,
};
use image_js::typeset::{Bounds, Collector, Outline, PenMove, Point, Seg};

fn s(v: f32) -> Scalar {
    Scalar { bits: v.to_bits() }
}

fn f(v: Scalar) -> f32 {
    f32::from_bits(v.bits)
}

fn pt(x: f32, y: f32) -> Point {
    Point { x: s(x), y: s(y) }
}

fn draw(segs: &Vec<Seg>, b: Bounds) -> RasterRun {
    let (ox, oy) = (f(b.min.x).floor(), f(b.min.y).floor());
    let w = ((f(b.max.x).ceil() - ox) as u32).max(1);
    let h = ((f(b.max.y).ceil() - oy) as u32).max(1);
    let mut r = ab_glyph_rasterizer::Rasterizer::new(w as usize, h as usize);
    let at = |p: Point| ab_glyph_rasterizer::point(f(p.x) - ox, f(p.y) - oy);
    for seg in segs {
        match *seg {
            Seg::Line(a, b) => r.draw_line(at(a), at(b)),
            Seg::Quad(a, c, b) => r.draw_quad(at(a), at(c), at(b)),
            Seg::Cubic(a, c, d, b) => r.draw_cubic(at(a), at(c), at(d), at(b)),
        }
    }
    let mut coverage = vec![0u8; (w * h) as usize];
    r.for_each_pixel_2d(|x, y, c| {
        if x < w && y < h {
            coverage[(y * w + x) as usize] = (c * 255.0).round().clamp(0.0, 255.0) as u8;
        }
    });
    RasterRun { width: w, height: h, coverage, dx: ox as i32, dy: oy as i32, missing: 0 }
}

/// Set a text in a face of 1000 units whose letters are upright boxes, 700
/// units high, left open by their last edge; the missing glyph has no outline.
fn set(font: &[u8], text: &str, size: f32, style: RunStyle) -> Option<RasterRun> {
    let scale = size / 1000.0;
    let (hs, vs) = (f(style.h_scale), f(style.v_scale));
    let track = size * f(style.tracking_per_mille) / 1000.0;
    let lean = f(style.skew_deg).to_radians().tan();
    let step = |pen: Point, g: Glyph| {
        pt(
            f(pen.x) + (g.x_advance as f32 * scale * hs + track),
            f(pen.y) - g.y_advance as f32 * scale,
        )
    };
    let slack = |widest: Scalar, width: Scalar| {
        let d = f(widest) - f(width);
        (s(d), s(d * 0.5))
    };
    let baseline =
        |leading: Scalar, i: usize| s(f(leading) * i as f32 - f(style.baseline_shift_px));
    let anchor = |pen: Point, g: Glyph| {
        pt(f(pen.x) + g.x_offset as f32 * scale, f(pen.y) - g.y_offset as f32 * scale)
    };
    let outline = |id: u16, at: Point| {
        if id == 0 {
            return Outline { moves: Vec::new(), complete: false };
        }
        let map = |x: f32, y: f32| {
            let (sx, sy) = (x * scale * hs, y * scale * vs);
            let dy = f(at.y) - sy;
            pt(f(at.x) + sx - (dy - f(at.y)) * lean, dy)
        };
        let w = 400.0 + 100.0 * id as f32;
        Outline {
            moves: vec![
                PenMove::MoveTo(map(0.0, 0.0)),
                PenMove::LineTo(map(0.0, 700.0)),
                PenMove::LineTo(map(w, 700.0)),
                PenMove::LineTo(map(w, 0.0)),
                PenMove::Close,
            ],
            complete: true,
        }
    };
    let rule = |strike: bool, top: Scalar| {
        let (offset, thickness) = if strike { (300.0, 50.0) } else { (-100.0, 50.0) };
        let y0 = f(top) - offset * scale * vs;
        Some((s(y0), s(y0 + (thickness * scale).max(1.0) * vs)))
    };
    let reach = |x0: Scalar, pen: Scalar| s(f(x0) + (f(pen) - f(x0)));
    let shear = |p: Point| s(f(p.x) - f(p.y) * lean);
    rasterize_run(
        font,
        text,
        s(size),
        style,
        s(size),
        s(size * 1.2),
        &step,
        &slack,
        &baseline,
        &anchor,
        &outline,
        &rule,
        &reach,
        &shear,
        &draw,
    )
}

fn be16(v: &mut Vec<u8>, n: u16) {
    v.extend_from_slice(&n.to_be_bytes());
}

fn be32(v: &mut Vec<u8>, n: u32) {
    v.extend_from_slice(&n.to_be_bytes());
}

/// A face of three glyphs: the missing glyph, A and B, 500, 600 and 700 units
/// wide.
fn face(units: u16) -> Vec<u8> {
    let mut cmap = Vec::new();
    be16(&mut cmap, 0);
    be16(&mut cmap, 1);
    be16(&mut cmap, 3);
    be16(&mut cmap, 10);
    be32(&mut cmap, 12);
    be16(&mut cmap, 12);
    be16(&mut cmap, 0);
    be32(&mut cmap, 28);
    be32(&mut cmap, 0);
    be32(&mut cmap, 1);
    be32(&mut cmap, 'A' as u32);
    be32(&mut cmap, 'B' as u32);
    be32(&mut cmap, 1);
    let mut head = Vec::new();
    be32(&mut head, 0x0001_0000);
    be32(&mut head, 0x0001_0000);
    be32(&mut head, 0);
    be32(&mut head, 0x5f0f_3cf5);
    be16(&mut head, 0);
    be16(&mut head, units);
    head.extend_from_slice(&[0u8; 34]);
    let mut hhea = Vec::new();
    be32(&mut hhea, 0x0001_0000);
    be16(&mut hhea, 800);
    be16(&mut hhea, (-200i16) as u16);
    hhea.extend_from_slice(&[0u8; 26]);
    be16(&mut hhea, 3);
    let mut hmtx = Vec::new();
    for advance in [500u16, 600, 700] {
        be16(&mut hmtx, advance);
        be16(&mut hmtx, 0);
    }
    let mut maxp = Vec::new();
    be32(&mut maxp, 0x0000_5000);
    be16(&mut maxp, 3);

    let tables: [(&[u8; 4], &Vec<u8>); 5] =
        [(b"cmap", &cmap), (b"head", &head), (b"hhea", &hhea), (b"hmtx", &hmtx), (b"maxp", &maxp)];
    let mut font = Vec::new();
    be32(&mut font, 0x0001_0000);
    be16(&mut font, 5);
    be16(&mut font, 64);
    be16(&mut font, 2);
    be16(&mut font, 16);
    let mut at = 12 + 16 * 5;
    for (tag, bytes) in tables {
        font.extend_from_slice(tag);
        be32(&mut font, 0);
        be32(&mut font, at);
        be32(&mut font, bytes.len() as u32);
        at += (bytes.len() as u32 + 3) / 4 * 4;
    }
    for (_, bytes) in tables {
        font.extend_from_slice(bytes);
        while font.len() % 4 != 0 {
            font.push(0);
        }
    }
    font
}

fn glyph(id: u32, x_advance: i32) -> Glyph {
    Glyph { id, x_advance, y_advance: 0, x_offset: 0, y_offset: 0 }
}

#[test]
fn image_editor_raster_type_refuses_input_it_cannot_shape() {
    let style = RunStyle::default();
    assert!(set(b"not a font at all", "hello", 24.0, style).is_none());
    assert!(set(b"not a font", "", 24.0, style).is_none());
}

#[test]
fn image_editor_raster_type_refuses_a_nonsensical_size() {
    for bad in [0.0f32, -12.0, f32::NAN, f32::INFINITY] {
        assert!(
            set(b"not a font", "hi", bad, RunStyle::default()).is_none(),
            "size {bad} should be refused"
        );
        assert!(
            set(&face(1000), "AB", bad, RunStyle::default()).is_none(),
            "size {bad} should be refused"
        );
    }
}

#[test]
fn image_editor_raster_type_style_edges_are_normalised_not_propagated() {
    let nan_track = RunStyle { tracking_per_mille: s(f32::NAN), ..RunStyle::default() };
    assert!(set(b"not a font", "hi", 24.0, nan_track).is_none());
    for l in [Some(s(0.0)), Some(s(-10.0)), Some(s(f32::NAN)), None] {
        let st = RunStyle { leading_px: l, ..RunStyle::default() };
        assert!(set(b"not a font", "a\nb", 24.0, st).is_none());
        assert_eq!(st.leading(s(36.0)), s(36.0), "not a positive number means AUTO");
    }
    let stated = RunStyle { leading_px: Some(s(40.0)), ..RunStyle::default() };
    assert_eq!(stated.leading(s(36.0)), s(40.0));
}

#[test]
fn a_line_is_shaped_by_the_face() {
    let layout = lay_out(&face(1000), "AB", s(24.0), RunStyle::default()).expect("a face");
    assert_eq!(layout.units_per_em, 1000);
    assert_eq!(layout.lines, vec![Some(vec![glyph(1, 600), glyph(2, 700)])]);
}

#[test]
fn the_units_are_the_faces_own() {
    let layout = lay_out(&face(2048), "B", s(24.0), RunStyle::default()).expect("a face");
    assert_eq!(layout.units_per_em, 2048);
    assert_eq!(layout.lines, vec![Some(vec![glyph(2, 700)])]);
    assert_eq!(design_units(&face(2048)), Some(2048));
    assert_eq!(design_units(&[1, 2, 3]), None);
}

#[test]
fn a_character_outside_the_face_shapes_to_the_missing_glyph() {
    let plain = RunStyle { ligatures: false, ..RunStyle::default() };
    let layout = lay_out(&face(1000), "AZ", s(24.0), plain).expect("a face");
    assert_eq!(layout.lines, vec![Some(vec![glyph(1, 600), glyph(0, 500)])]);
}

#[test]
fn a_blank_line_keeps_its_place() {
    let layout = lay_out(&face(1000), "A\n\r\nBA", s(24.0), RunStyle::default()).expect("a face");
    assert_eq!(
        layout.lines,
        vec![Some(vec![glyph(1, 600)]), None, Some(vec![glyph(2, 700), glyph(1, 600)])]
    );
}

#[test]
fn a_run_is_the_ink_of_its_glyphs() {
    // A is 500 of 1000 units wide and 700 high; at 10 px, 5 by 7 full pixels.
    let run = set(&face(1000), "A", 10.0, RunStyle::default()).expect("a face");
    assert_eq!((run.width, run.height, run.dx, run.dy), (5, 7, 0, -7));
    assert!(run.coverage.iter().all(|c| *c == 255));
    assert_eq!(run.missing, 0);
    // B starts behind A's advance of 600 units and is 600 wide.
    let run = set(&face(1000), "AB", 10.0, RunStyle::default()).expect("a face");
    assert_eq!((run.width, run.height), (12, 7));
    assert_eq!(run.coverage[5], 0, "the gap between the letters");
}

#[test]
fn missing_glyphs_are_counted_and_not_drawn() {
    let run = set(&face(1000), "ZAZ", 10.0, RunStyle::default()).expect("a face");
    assert_eq!(run.missing, 2);
    assert_eq!((run.width, run.dx), (5, 5), "the missing glyph still advances the pen");
    let none = set(&face(1000), "ZZ", 10.0, RunStyle::default()).expect("a face");
    assert_eq!((none.width, none.height, none.missing), (0, 0, 2));
    assert!(none.coverage.is_empty());
}

#[test]
fn image_editor_raster_type_lays_out_lines_leading_and_tracking() {
    let font = face(1000);
    let plain = RunStyle::default();
    let one = set(&font, "A", 32.0, plain).expect("one line");
    let two = set(&font, "A\nA", 32.0, plain).expect("two lines");
    assert!(two.height > one.height, "a second line must occupy more height");
    let loose_style = RunStyle { leading_px: Some(s(120.0)), ..plain };
    let loose = set(&font, "A\nA", 32.0, loose_style).expect("two lines, loose");
    assert!(loose.height > two.height, "explicit leading must exceed the auto leading");
    let gapped = set(&font, "A\n\nA", 32.0, plain).expect("with a blank line");
    assert!(gapped.height > two.height, "a blank line must occupy a line's worth of height");
    let tight = set(&font, "AA", 32.0, plain).expect("two glyphs");
    let spaced_style = RunStyle { tracking_per_mille: s(500.0), ..plain };
    let spaced = set(&font, "AA", 32.0, spaced_style).expect("two glyphs, spaced");
    assert!(spaced.width > tight.width, "tracking must widen the run");
}

#[test]
fn image_editor_raster_type_every_style_axis_changes_the_geometry() {
    let font = face(1000);
    let base = RunStyle::default();
    let plain = set(&font, "AB", 32.0, base).expect("base");

    let wide = set(&font, "AB", 32.0, RunStyle { h_scale: s(2.0), ..base }).expect("wide");
    assert!(wide.width > plain.width, "h_scale must widen");
    assert_eq!(wide.height, plain.height, "h_scale must not change height");

    let tall = set(&font, "AB", 32.0, RunStyle { v_scale: s(2.0), ..base }).expect("tall");
    assert!(tall.height > plain.height, "v_scale must heighten");

    let up = RunStyle { baseline_shift_px: s(20.0), ..base };
    let lifted = set(&font, "AB", 32.0, up).expect("lifted");
    assert_eq!(lifted.height, plain.height, "a shift must not resize");
    assert!(lifted.dy < plain.dy, "positive shift moves the run UP");

    let slanted = set(&font, "AB", 32.0, RunStyle { skew_deg: s(15.0), ..base }).expect("slanted");
    assert!(slanted.width > plain.width, "a slant must widen the bounds");

    let under = RunStyle { underline: true, ..base };
    let underlined = set(&font, "AB", 32.0, under).expect("underlined");
    assert!(underlined.height > plain.height, "an underline must extend the box");
    let strike = RunStyle { strikethrough: true, ..base };
    let struck = set(&font, "AB", 32.0, strike).expect("struck");
    assert!(
        struck.width >= plain.width && struck.coverage.len() >= plain.coverage.len(),
        "a strikethrough must add ink"
    );

    let two = "A\nBBBB";
    let left = set(&font, two, 32.0, base).expect("left");
    let aligned = |align| set(&font, two, 32.0, RunStyle { align, ..base }).expect("aligned");
    let (centre, right) = (aligned(LineAlign::Center), aligned(LineAlign::Right));
    assert_eq!(centre.height, left.height);
    assert_eq!(right.height, left.height);
    let first_ink =
        |r: &RasterRun| -> Option<u32> { (0..r.width).find(|x| r.coverage[*x as usize] > 0) };
    let (l, c, r) = (first_ink(&left), first_ink(&centre), first_ink(&right));
    assert!(l < c && c < r, "the short line moves with its alignment: {l:?} {c:?} {r:?}");
}

#[test]
fn a_collector_closes_what_was_left_open() {
    let mut c = Collector::new();
    c.move_to(pt(0.0, 0.0));
    c.line_to(pt(4.0, 0.0));
    c.quad_to(pt(5.0, 2.0), pt(4.0, 4.0));
    c.curve_to(pt(3.0, 5.0), pt(1.0, 5.0), pt(0.0, 4.0));
    c.close();
    c.close();
    assert_eq!(c.segs().len(), 4, "one closing line, once");
    assert_eq!(c.segs()[3], Seg::Line(pt(0.0, 4.0), pt(0.0, 0.0)));
    let b = c.bounds();
    assert_eq!((b.min, b.max), (pt(0.0, 0.0), pt(5.0, 5.0)));
}

#[test]
fn lines_break_at_newlines_and_lose_a_carriage_return() {
    assert_eq!(split_lines("a\nb"), vec!["a", "b"]);
    assert_eq!(split_lines("a\r\nb"), vec!["a", "b"]);
    assert_eq!(split_lines(""), vec![""]);
    assert_eq!(split_lines("a\n"), vec!["a", ""]);
    assert_eq!(split_lines("a\rb"), vec!["a\rb"]);
}

#[test]
fn a_line_starts_where_its_alignment_says() {
    let at = |align| RunStyle { align, ..RunStyle::default() }.line_start(s(10.0), s(5.0));
    assert_eq!(at(LineAlign::Left), s(0.0));
    assert_eq!(at(LineAlign::Center), s(5.0));
    assert_eq!(at(LineAlign::Right), s(10.0));
    assert_eq!(LineAlign::default(), LineAlign::Left);
}

#[test]
fn glyphs_keep_every_part() {
    let placed = place_glyphs(&vec![(1, 2, 3, 4, 5)]);
    assert_eq!(
        placed,
        vec![Glyph { id: 1, x_advance: 2, y_advance: 3, x_offset: 4, y_offset: 5 }]
    );
    let blank = RasterRun::blank(3);
    assert_eq!((blank.width, blank.height, blank.missing), (0, 0, 3));
    assert!(blank.coverage.is_empty());
}

fn rect_area(edges: &[((f32, f32), (f32, f32))]) -> f32 {
    let mut r = ab_glyph_rasterizer::Rasterizer::new(8, 6);
    for (a, b) in edges {
        r.draw_line(
            ab_glyph_rasterizer::point(a.0, a.1),
            ab_glyph_rasterizer::point(b.0, b.1),
        );
    }
    let mut total = 0f32;
    r.for_each_pixel_2d(|_x, _y, c| total += c);
    total
}

const RECT: [((f32, f32), (f32, f32)); 4] = [
    ((1.0, 1.0), (7.0, 1.0)),
    ((7.0, 1.0), (7.0, 5.0)),
    ((7.0, 5.0), (1.0, 5.0)),
    ((1.0, 5.0), (1.0, 1.0)),
];

#[test]
fn image_editor_raster_type_the_rasterizer_integrates_to_the_true_area() {
    let total = rect_area(&RECT);
    assert!((total - 24.0).abs() < 0.01, "a 6×4 rect must integrate to 24, got {total}");
}

#[test]
fn image_editor_raster_type_an_unclosed_contour_would_bleed() {
    let total = rect_area(&RECT[..3]);
    assert!((total - 24.0).abs() > 1.0, "an unclosed contour must not integrate to 24 ({total})");
}

#[test]
fn line_endings_and_an_unusable_leading_change_nothing() {
    let font = face(1000);
    let plain = RunStyle::default();
    let unix = set(&font, "A\nB\n\nA", 20.0, plain).expect("a face");
    assert_eq!(set(&font, "A\r\nB\r\n\r\nA", 20.0, plain).expect("a face"), unix);
    for l in [0.0, -3.0, f32::NAN, f32::INFINITY] {
        let st = RunStyle { leading_px: Some(s(l)), ..plain };
        assert_eq!(set(&font, "A\nB\n\nA", 20.0, st).expect("a face"), unix);
    }
    assert_eq!(unix.coverage.len(), (unix.width * unix.height) as usize);
}
