use image_js::heal::{correction_field, field_to_f16, sweep};
use image_js::scalar::Scalar;

fn s(v: f32) -> Scalar {
    Scalar { bits: v.to_bits() }
}

fn v(s: Scalar) -> f32 {
    f32::from_bits(s.bits)
}

/// The field in single precision, as the brush solves it.
fn solve(dest: &[u8], source: &[u8], inside: &[u8], w: usize, h: usize) -> Option<Vec<f32>> {
    let difference = |d: u8, g: u8| s((f32::from(d) - f32::from(g)) / 255.0);
    let mean = |list: &Vec<Scalar>| {
        let sum: f64 = list.iter().map(|x| f64::from(v(*x))).sum();
        s((sum / list.len() as f64) as f32)
    };
    let average =
        |l: Scalar, r: Scalar, u: Scalar, d: Scalar| s((v(l) + v(r) + v(u) + v(d)) * 0.25);
    correction_field(dest, source, inside, w, h, &difference, &mean, &average)
        .map(|f| f.into_iter().map(v).collect())
}

fn grey(w: usize, h: usize, f: impl Fn(usize, usize) -> u8) -> Vec<u8> {
    let mut out = Vec::with_capacity(w * h * 4);
    for y in 0..h {
        for x in 0..w {
            let g = f(x, y);
            out.extend_from_slice(&[g, g, g, 255]);
        }
    }
    out
}

fn centre_region(w: usize, h: usize, inset: usize) -> Vec<u8> {
    let mut out = vec![0u8; w * h];
    for y in inset..h - inset {
        for x in inset..w - inset {
            out[y * w + x] = 255;
        }
    }
    out
}

#[test]
fn image_editor_heal_a_uniform_mismatch_is_still_the_mean() {
    let (w, h) = (12, 12);
    let dest = grey(w, h, |_, _| 200);
    let src = grey(w, h, |_, _| 120);
    let inside = centre_region(w, h, 3);
    let c = solve(&dest, &src, &inside, w, h).expect("solved");
    let want = (200.0 - 120.0) / 255.0;
    for (i, cov) in inside.iter().enumerate() {
        if *cov == 0 {
            continue;
        }
        assert!(
            (c[i * 3] - want).abs() < 1e-3,
            "interior pixel {i} corrected by {} not {want}",
            c[i * 3]
        );
    }
}

#[test]
fn image_editor_heal_a_gradient_mismatch_is_corrected_across_the_patch() {
    let (w, h) = (16, 16);
    let dest = grey(w, h, |x, _| (x * 12) as u8);
    let src = grey(w, h, |_, _| 0);
    let inside = centre_region(w, h, 4);
    let c = solve(&dest, &src, &inside, w, h).expect("solved");
    let at = |x: usize, y: usize| c[(y * w + x) * 3];
    let (left, mid, right) = (at(5, 8), at(8, 8), at(10, 8));
    assert!(
        left < mid && mid < right,
        "the correction must RAMP with the mismatch: {left} < {mid} < {right}"
    );
    let boundary_left = (4 * 12) as f32 / 255.0;
    let boundary_right = (11 * 12) as f32 / 255.0;
    assert!(left > boundary_left - 0.05 && left < boundary_right);
    assert!(right < boundary_right + 0.05 && right > boundary_left);
}

#[test]
fn image_editor_heal_the_solve_beats_a_constant_on_a_ramp() {
    let (w, h) = (16, 16);
    let dest = grey(w, h, |x, _| (x * 12) as u8);
    let src = grey(w, h, |_, _| 0);
    let inside = centre_region(w, h, 4);
    let c = solve(&dest, &src, &inside, w, h).expect("solved");
    let mut sum = 0f32;
    for i in 0..w * h {
        sum += (f32::from(dest[i * 4]) - f32::from(src[i * 4])) / 255.0;
    }
    let constant = sum / (w * h) as f32;
    let mut solve_err = 0f32;
    let mut const_err = 0f32;
    for i in 0..w * h {
        if inside[i] == 0 {
            continue;
        }
        let want = (f32::from(dest[i * 4]) - f32::from(src[i * 4])) / 255.0;
        solve_err += (c[i * 3] - want).abs();
        const_err += (constant - want).abs();
    }
    assert!(
        solve_err < const_err * 0.5,
        "the solve should beat the constant substantially on a ramp: {solve_err} vs {const_err}"
    );
}

#[test]
fn image_editor_heal_a_boundaryless_window_yields_no_correction() {
    let (w, h) = (8, 8);
    let dest = grey(w, h, |_, _| 200);
    let src = grey(w, h, |_, _| 100);
    assert!(solve(&dest, &src, &vec![255u8; w * h], w, h).is_none());
    assert!(solve(&[], &[], &[], 0, 0).is_none());
}

#[test]
fn image_editor_heal_transparent_boundary_texels_are_not_conditions() {
    let (w, h) = (10, 10);
    let dest = grey(w, h, |_, _| 200);
    let mut src = grey(w, h, |_, _| 120);
    for y in 0..h {
        src[(y * w) * 4 + 3] = 0;
    }
    let inside = centre_region(w, h, 3);
    let c = solve(&dest, &src, &inside, w, h).expect("solved");
    let want = (200.0 - 120.0) / 255.0;
    assert!((c[(5 * w + 5) * 3] - want).abs() < 1e-2, "got {}", c[(5 * w + 5) * 3]);
}

#[test]
fn image_editor_heal_the_field_packs_as_rgba16f_with_zero_alpha() {
    let field = vec![s(0.5), s(0.25), s(0.125)];
    let half_of = |x: Scalar| half::f16::from_f32(v(x)).to_bits();
    let packed = field_to_f16(&field, 1, &half_of);
    assert_eq!(packed.len(), 8, "one rgba16float texel");
    let a = half::f16::from_le_bytes([packed[6], packed[7]]);
    assert_eq!(a.to_f32(), 0.0, "a heal shifts tone, never transparency");
    let r = half::f16::from_le_bytes([packed[0], packed[1]]);
    assert!((r.to_f32() - 0.5).abs() < 1e-3);
    // A field that is too short packs as zero.
    let short = field_to_f16(&field, 2, &half_of);
    assert_eq!(&short[8..], &[0u8; 8]);
}

#[test]
fn a_sweep_keeps_the_boundary_and_reflects_at_the_rim() {
    // One row of three, the middle inside: its upper and lower neighbours are
    // the pixel itself.
    let field: Vec<Scalar> = [1.0, 0.0, 3.0]
        .iter()
        .flat_map(|x| [s(*x), s(*x), s(*x)])
        .collect();
    let average =
        |l: Scalar, r: Scalar, u: Scalar, d: Scalar| s((v(l) + v(r) + v(u) + v(d)) * 0.25);
    let next = sweep(&field, &[255; 12], &[0, 255, 0], 3, 1, &average);
    assert_eq!(v(next[0]), 1.0);
    assert_eq!(v(next[3]), 1.0);
    assert_eq!(v(next[6]), 3.0);
}

#[test]
fn a_transparent_source_pixel_is_no_boundary_condition() {
    let dest = [200, 200, 200, 255].repeat(3);
    let mut source = [120, 120, 120, 255].repeat(2);
    source.extend_from_slice(&[0, 0, 0, 0]);
    let c = solve(&dest, &source, &[0, 255, 0], 3, 1).expect("solved");
    assert!((c[3] - 80.0 / 255.0).abs() < 1e-2, "got {}", c[3]);
    let average =
        |l: Scalar, r: Scalar, u: Scalar, d: Scalar| s((v(l) + v(r) + v(u) + v(d)) * 0.25);
    let field: Vec<Scalar> = [4.0, 8.0, 0.0].iter().flat_map(|x| [s(*x); 3]).collect();
    let next = sweep(&field, &source, &[0, 255, 0], 3, 1, &average);
    assert_eq!(v(next[3]), 7.0, "the pixel stands in for it");
}
