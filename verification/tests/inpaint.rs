use image_js::coverage::SelectionCoverage;
use image_js::inpaint::{best_exemplar, fill, on_front, rgba_at, Priorities, R};
use image_js::scalar::Scalar;

fn img(w: u32, h: u32, f: impl Fn(u32, u32) -> [u8; 3]) -> Vec<u8> {
    let mut v = Vec::with_capacity((w * h * 4) as usize);
    for y in 0..h {
        for x in 0..w {
            let c = f(x, y);
            v.extend_from_slice(&[c[0], c[1], c[2], 255]);
        }
    }
    v
}

fn hole(w: u32, h: u32, x0: u32, y0: u32, x1: u32, y1: u32) -> SelectionCoverage {
    let mut d = vec![0u8; (w * h) as usize];
    for y in y0..y1 {
        for x in x0..x1 {
            d[(y * w + x) as usize] = 255;
        }
    }
    SelectionCoverage::from_data(w, h, d).expect("coverage")
}

fn mean_conf(conf: &[Scalar], known: &[bool], w: i32, h: i32, x: i32, y: i32) -> f32 {
    let (mut sum, mut count) = (0f32, 0f32);
    for dy in -R..=R {
        for dx in -R..=R {
            let (px, py) = (x + dx, y + dy);
            if px < 0 || py < 0 || px >= w || py >= h {
                continue;
            }
            let i = (py * w + px) as usize;
            count += 1.0;
            if known[i] {
                sum += f32::from_bits(conf[i].bits);
            }
        }
    }
    sum / count
}

fn data_term(rgba: &[u8], known: &[bool], w: i32, h: i32, x: i32, y: i32) -> f32 {
    let inside = |xx: i32, yy: i32| xx >= 0 && yy >= 0 && xx < w && yy < h;
    let lum = |xx: i32, yy: i32| -> Option<f32> {
        let i = (yy * w + xx) as usize;
        if !inside(xx, yy) || !known[i] {
            return None;
        }
        Some(
            (0.2126 * f32::from(rgba[i * 4])
                + 0.7152 * f32::from(rgba[i * 4 + 1])
                + 0.0722 * f32::from(rgba[i * 4 + 2]))
                / 255.0,
        )
    };
    let half = |a: Option<f32>, b: Option<f32>| match (a, b) {
        (Some(a), Some(b)) => (a - b) * 0.5,
        _ => 0.0,
    };
    let gx = half(lum(x + 1, y), lum(x - 1, y));
    let gy = half(lum(x, y + 1), lum(x, y - 1));
    let m = |xx: i32, yy: i32| -> f32 {
        if !inside(xx, yy) || known[(yy * w + xx) as usize] {
            1.0
        } else {
            0.0
        }
    };
    let nx = (m(x + 1, y) - m(x - 1, y)) * 0.5;
    let ny = (m(x, y + 1) - m(x, y - 1)) * 0.5;
    let len = (nx * nx + ny * ny).sqrt();
    if len <= f32::EPSILON {
        return 0.0;
    }
    ((-gy) * (nx / len) + gx * (ny / len)).abs()
}

fn s(v: f32) -> Scalar {
    Scalar { bits: v.to_bits() }
}

fn f(v: Scalar) -> f32 {
    f32::from_bits(v.bits)
}

fn mean(v: &Vec<Scalar>, n: u32) -> Scalar {
    s(v.iter().fold(0f32, |sum, c| sum + f(*c)) / n as f32)
}

fn slope(r1: u8, g1: u8, b1: u8, r0: u8, g0: u8, b0: u8) -> Scalar {
    let lum = |r: u8, g: u8, b: u8| {
        (0.2126 * f32::from(r) + 0.7152 * f32::from(g) + 0.0722 * f32::from(b)) / 255.0
    };
    s((lum(r1, g1, b1) - lum(r0, g0, b0)) * 0.5)
}

fn edge(gx: Scalar, gy: Scalar, nx2: i32, ny2: i32) -> Scalar {
    let (nx, ny) = (nx2 as f32 * 0.5, ny2 as f32 * 0.5);
    let len = (nx * nx + ny * ny).sqrt();
    s(((-f(gy)) * (nx / len) + f(gx) * (ny / len)).abs())
}

fn priority(c: Scalar, d: Scalar) -> Scalar {
    s(f(c) * (f(d) + 0.001))
}

fn run(src: &[u8], w: u32, h: u32, sel: &SelectionCoverage, threshold: u8) -> Option<Vec<u8>> {
    let priorities = Priorities { mean, slope, edge, priority };
    fill(src, w, h, sel, threshold, &priorities)
}

#[test]
fn the_terms_of_a_priority_are_those_of_the_formula() {
    let (w, h) = (13i32, 11i32);
    let n = (w * h) as usize;
    // A small scrambled picture with holes in it.
    let noise = |i: usize| ((i * 7919 + 104_729) % 251) as u8;
    let rgba: Vec<u8> = (0..n * 4).map(noise).collect();
    let known: Vec<bool> = (0..n).map(|i| noise(i * 3) > 90).collect();
    let conf: Vec<Scalar> = (0..n).map(|i| s(f32::from(noise(i * 5)) / 251.0)).collect();
    let priorities = Priorities { mean, slope, edge, priority };
    for y in 0..h {
        for x in 0..w {
            let c = priorities.mean_conf(&conf, &known, w, h, x, y);
            assert_eq!(f(c), mean_conf(&conf, &known, w, h, x, y), "({x},{y})");
            let d = priorities.data_term(&rgba, &known, w, h, x, y);
            assert_eq!(f(d), data_term(&rgba, &known, w, h, x, y), "({x},{y})");
        }
    }
}

#[test]
fn the_front_patch_with_the_highest_priority_comes_first() {
    // A one-row hole between two known rows; the confidences rise to the right.
    let (w, h) = (5i32, 3i32);
    let mut known = vec![true; 15];
    for k in known.iter_mut().take(10).skip(5) {
        *k = false;
    }
    let rgba = vec![100u8; 60];
    let conf: Vec<Scalar> = (0..15).map(|i| s(if i % 5 == 4 { 1.0 } else { 0.1 })).collect();
    let first = |v: &Vec<Scalar>, _: u32| v[0];
    let priorities = Priorities { mean: first, slope, edge, priority };
    // Every patch reaches the first pixel, so all rate alike: the first wins.
    let (x, y, r) = priorities.best_front_patch(&rgba, &known, &conf, w, h).expect("a front");
    assert_eq!((x, y), (0, 1));
    assert_eq!(r.confidence, s(0.1));
    let column = |_: &Vec<Scalar>, n: u32| s(n as f32);
    let priorities = Priorities { mean: column, slope, edge, priority };
    let (x, y, _) = priorities.best_front_patch(&rgba, &known, &conf, w, h).expect("a front");
    assert_eq!((x, y), (0, 1), "all patches cover the small image whole");
    let whole = vec![true; 15];
    assert!(priorities.best_front_patch(&rgba, &whole, &conf, w, h).is_none());
}

#[test]
fn image_editor_inpaint_fills_every_selected_pixel() {
    let (w, h) = (64u32, 64u32);
    let src = img(w, h, |x, _| {
        let v = if (x / 4) % 2 == 0 { 30 } else { 220 };
        [v, v, v]
    });
    let sel = hole(w, h, 28, 28, 36, 36);
    let out = run(&src, w, h, &sel, 128).expect("filled");
    for y in 28..36 {
        for x in 28..36 {
            let i = ((y * w + x) * 4) as usize;
            assert!(
                out[i] == 30 || out[i] == 220,
                "pixel ({x},{y}) is {} — filled from real image pixels",
                out[i]
            );
        }
    }
}

#[test]
fn image_editor_inpaint_synthesises_texture_rather_than_averaging_it() {
    let (w, h) = (48u32, 48u32);
    let src = img(w, h, |x, _| {
        let v = if (x / 3) % 2 == 0 { 0 } else { 255 };
        [v, v, v]
    });
    let sel = hole(w, h, 20, 20, 28, 28);
    let out = run(&src, w, h, &sel, 128).expect("filled");
    let mut intermediate = 0;
    for y in 20..28 {
        for x in 20..28 {
            let v = out[((y * w + x) * 4) as usize];
            if v > 20 && v < 235 {
                intermediate += 1;
            }
        }
    }
    assert_eq!(intermediate, 0, "every pixel it writes was copied");
}

#[test]
fn image_editor_inpaint_preserves_an_edge_across_the_hole() {
    let (w, h) = (64u32, 48u32);
    let src = img(w, h, |_, y| {
        let v = if y < 24 { 20 } else { 230 };
        [v, v, v]
    });
    let sel = hole(w, h, 26, 18, 38, 30);
    let out = run(&src, w, h, &sel, 128).expect("filled");
    let at = |x: u32, y: u32| out[((y * w + x) * 4) as usize] as i32;
    for x in 28..36 {
        assert!(at(x, 20) < 128, "above the edge stayed dark at x={x}");
        assert!(at(x, 28) > 128, "below the edge stayed light at x={x}");
    }
}

#[test]
fn image_editor_inpaint_refuses_a_hole_with_no_source() {
    let (w, h) = (16u32, 16u32);
    let src = img(w, h, |_, _| [100, 100, 100]);
    let empty = SelectionCoverage::from_data(w, h, vec![0u8; (w * h) as usize]).unwrap();
    assert!(run(&src, w, h, &empty, 128).is_none());
    let all = SelectionCoverage::from_data(w, h, vec![255u8; (w * h) as usize]).unwrap();
    assert!(run(&src, w, h, &all, 128).is_none());
}

#[test]
fn image_editor_inpaint_is_deterministic() {
    let (w, h) = (48u32, 48u32);
    let src = img(w, h, |x, y| [(x * 5) as u8, (y * 5) as u8, 128]);
    let sel = hole(w, h, 18, 18, 26, 26);
    let a = run(&src, w, h, &sel, 128).expect("a");
    let b = run(&src, w, h, &sel, 128).expect("b");
    assert_eq!(a, b);
}

#[test]
fn image_editor_inpaint_leaves_everything_outside_the_selection_alone() {
    let (w, h) = (48u32, 48u32);
    let src = img(w, h, |x, y| [(x * 5) as u8, (y * 5) as u8, 77]);
    let sel = hole(w, h, 18, 18, 26, 26);
    let out = run(&src, w, h, &sel, 128).expect("filled");
    for y in 0..h {
        for x in 0..w {
            if (18..26).contains(&x) && (18..26).contains(&y) {
                continue;
            }
            let i = ((y * w + x) * 4) as usize;
            assert_eq!(&out[i..i + 4], &src[i..i + 4], "pixel ({x},{y}) was modified");
        }
    }
}

#[test]
fn a_short_buffer_is_refused() {
    let sel = hole(4, 4, 1, 1, 2, 2);
    assert!(run(&[0u8; 63], 4, 4, &sel, 128).is_none());
}

#[test]
fn an_image_smaller_than_a_patch_keeps_its_pixels() {
    let src = img(4, 4, |x, y| [x as u8, y as u8, 9]);
    let sel = hole(4, 4, 1, 1, 3, 3);
    assert_eq!(run(&src, 4, 4, &sel, 128).expect("no exemplar"), src);
}

#[test]
fn the_front_is_the_unknown_beside_the_known() {
    // A row of three: known, unknown, unknown.
    let known = [true, false, false];
    assert!(!on_front(&known, 3, 1, 0, 0));
    assert!(on_front(&known, 3, 1, 1, 0));
    assert!(!on_front(&known, 3, 1, 2, 0));
    assert_eq!(rgba_at(&[1, 2, 3, 4, 5, 6, 7, 8], 1), [5, 6, 7, 8]);
}

#[test]
fn the_first_of_equal_exemplars_is_taken() {
    let (w, h) = (24i32, 12i32);
    let src = img(w as u32, h as u32, |_, _| [50, 50, 50]);
    let mut known = vec![true; (w * h) as usize];
    known[(5 * w + 5) as usize] = false;
    assert_eq!(best_exemplar(&src, &known, w, h, 5, 5), Some((10, 4)));
}

#[test]
fn a_hole_is_filled_from_outside_of_it() {
    let (w, h) = (40u32, 40u32);
    let sel = hole(w, h, 16, 16, 24, 24);
    // The hole holds a colour that stands nowhere else.
    let src = img(w, h, |x, y| {
        if (16..24).contains(&x) && (16..24).contains(&y) {
            [255, 0, 255]
        } else {
            [(x * 3) as u8, (y * 3) as u8, 50]
        }
    });
    let out = run(&src, w, h, &sel, 128).expect("filled");
    assert!(out.chunks_exact(4).all(|p| p[2] == 50), "no pixel of the hole is left");
}
