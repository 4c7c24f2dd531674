use image_js::paths::{edge_is_boundary, trace, trace_json, Contour};
use image_js::scalar::Scalar;

fn scalar(v: f32) -> Scalar {
    Scalar { bits: v.to_bits() }
}

/// How far a point is from the line through two others.
fn distance(p: (usize, usize), a: (usize, usize), b: (usize, usize)) -> Scalar {
    let (px, py) = (p.0 as f32, p.1 as f32);
    let (ax, ay) = (a.0 as f32, a.1 as f32);
    let (dx, dy) = (b.0 as f32 - ax, b.1 as f32 - ay);
    let len2 = dx * dx + dy * dy;
    if len2 <= f32::EPSILON {
        let (ex, ey) = (px - ax, py - ay);
        return scalar((ex * ex + ey * ey).sqrt());
    }
    scalar(((px - ax) * dy - (py - ay) * dx).abs() / len2.sqrt())
}

fn rect(w: usize, h: usize, x0: usize, y0: usize, x1: usize, y1: usize) -> Vec<u8> {
    let mut v = vec![0u8; w * h];
    for y in y0..y1 {
        for x in x0..x1 {
            v[y * w + x] = 255;
        }
    }
    v
}

fn sorted(c: &Contour) -> Vec<(usize, usize)> {
    let mut pts = c.points.clone();
    pts.sort();
    pts
}

#[test]
fn image_paths_selection_to_path_traces_a_rect_to_four_corners() {
    let cov = rect(6, 5, 1, 1, 4, 3);
    let cs = trace(&cov, 6, 5, 128, scalar(0.0), &distance);
    assert_eq!(cs.len(), 1, "one region, one contour");
    assert!(cs[0].outer);
    assert_eq!(sorted(&cs[0]), vec![(1, 1), (1, 3), (4, 1), (4, 3)]);
}

#[test]
fn image_paths_selection_to_path_empty_selection_traces_nothing() {
    assert!(trace(&[0u8; 16], 4, 4, 128, scalar(0.0), &distance).is_empty());
    assert!(trace(&[], 0, 0, 128, scalar(0.0), &distance).is_empty());
    assert_eq!(trace_json(&[0u8; 16], 4, 4, 128, scalar(0.0), &distance), "[]");
}

#[test]
fn image_paths_selection_to_path_full_selection_is_the_image_border() {
    let cs = trace(&[255u8; 12], 4, 3, 128, scalar(0.0), &distance);
    assert_eq!(cs.len(), 1);
    assert_eq!(sorted(&cs[0]), vec![(0, 0), (0, 3), (4, 0), (4, 3)]);
}

#[test]
fn image_paths_selection_to_path_disjoint_regions_stay_separate() {
    let mut cov = rect(9, 3, 1, 1, 3, 2);
    for x in 6..8 {
        cov[9 + x] = 255;
    }
    let cs = trace(&cov, 9, 3, 128, scalar(0.0), &distance);
    assert_eq!(cs.len(), 2, "two islands, two contours");
    assert!(cs.iter().all(|c| c.outer));
}

#[test]
fn image_paths_selection_to_path_a_hole_is_its_own_contour() {
    let mut cov = rect(5, 5, 0, 0, 5, 5);
    cov[2 * 5 + 2] = 0;
    let cs = trace(&cov, 5, 5, 128, scalar(0.0), &distance);
    assert_eq!(cs.len(), 2, "outer ring + hole");
    assert_eq!(cs.iter().filter(|c| c.outer).count(), 1);
    assert_eq!(cs.iter().filter(|c| !c.outer).count(), 1);
    let hole = cs.iter().find(|c| !c.outer).unwrap();
    assert_eq!(sorted(hole), vec![(2, 2), (2, 3), (3, 2), (3, 3)]);
}

#[test]
fn image_paths_selection_to_path_threshold_changes_what_is_traced() {
    let cov = vec![0u8, 100, 200, 255];
    let low = trace(&cov, 4, 1, 50, scalar(0.0), &distance);
    let high = trace(&cov, 4, 1, 220, scalar(0.0), &distance);
    assert_eq!(low.len(), 1);
    assert_eq!(high.len(), 1);
    let width_of = |c: &Contour| {
        let xs: Vec<usize> = c.points.iter().map(|p| p.0).collect();
        xs.iter().max().unwrap() - xs.iter().min().unwrap()
    };
    assert_eq!(width_of(&low[0]), 3, "coverage >= 50 is three pixels");
    assert_eq!(width_of(&high[0]), 1, "coverage >= 220 is one");
}

#[test]
fn image_paths_selection_to_path_json_carries_outer_and_points() {
    let json = trace_json(&rect(4, 4, 1, 1, 3, 3), 4, 4, 128, scalar(0.0), &distance);
    assert!(json.starts_with("[{\"outer\":true,\"points\":[["), "{json}");
    assert_eq!(json.matches("[1,1]").count(), 1, "{json}");
    assert_eq!(json.matches("[3,3]").count(), 1, "{json}");
}

#[test]
fn a_tolerance_never_leaves_less_than_a_triangle() {
    // A 2×1 block: six unit steps, four of them corners.
    let cov = rect(4, 3, 1, 1, 3, 2);
    assert_eq!(trace(&cov, 4, 3, 128, scalar(0.0), &distance)[0].points.len(), 4);
    assert_eq!(trace(&cov, 4, 3, 128, scalar(0.7), &distance)[0].points.len(), 4);
    // Every step is within a pixel of its neighbours' line: the walk stays.
    assert_eq!(
        sorted(&trace(&cov, 4, 3, 128, scalar(1.0), &distance)[0]),
        vec![(1, 1), (1, 2), (2, 1), (2, 2), (3, 1), (3, 2)]
    );
}

#[test]
fn an_edge_is_boundary_where_the_sides_differ() {
    let inside = |x: isize, y: isize| x == 0 && y == 0;
    // The four edges of the one selected pixel, walked with it on the right.
    assert!(edge_is_boundary(0, 0, 0, &inside));
    assert!(edge_is_boundary(1, 0, 1, &inside));
    assert!(edge_is_boundary(1, 1, 2, &inside));
    assert!(edge_is_boundary(0, 1, 3, &inside));
    assert!(!edge_is_boundary(0, 0, 1, &inside));
}

/// How often contours wind round a pixel, counted along the ray straight up from
/// its centre.
fn winding(contours: &[Contour], px: usize, py: usize) -> i32 {
    let mut turns = 0;
    for c in contours {
        for (i, p) in c.points.iter().enumerate() {
            let q = c.points[(i + 1) % c.points.len()];
            if p.1 == q.1 && p.1 <= py {
                if p.0 <= px && px < q.0 {
                    turns += 1;
                } else if q.0 <= px && px < p.0 {
                    turns -= 1;
                }
            }
        }
    }
    turns
}

#[test]
fn contours_wind_once_round_each_selected_pixel_and_round_no_other() {
    let (w, h) = (4usize, 3usize);
    for bits in 0u32..1 << (w * h) {
        let cov: Vec<u8> = (0..w * h).map(|i| if bits >> i & 1 == 1 { 255 } else { 0 }).collect();
        let contours = trace(&cov, w, h, 128, scalar(0.0), &distance);
        for (i, c) in cov.iter().enumerate() {
            let turns = winding(&contours, i % w, i / w);
            assert_eq!(turns, if *c == 255 { 1 } else { 0 }, "pixel {i} of {bits:b}");
        }
    }
}

#[test]
fn an_island_in_a_hole_is_wound_round_too() {
    let mut cov = rect(7, 7, 0, 0, 7, 7);
    for y in 1..6 {
        for x in 1..6 {
            cov[y * 7 + x] = 0;
        }
    }
    cov[3 * 7 + 3] = 255;
    let contours = trace(&cov, 7, 7, 128, scalar(0.0), &distance);
    assert_eq!(contours.len(), 3);
    for (i, c) in cov.iter().enumerate() {
        let turns = winding(&contours, i % 7, i / 7);
        assert_eq!(turns, if *c == 255 { 1 } else { 0 }, "pixel {i}");
    }
}

#[test]
fn a_tolerance_below_zero_or_not_a_number_is_none() {
    let cov = rect(6, 5, 1, 1, 4, 3);
    for t in [-3.0f32, -0.0, f32::NAN, f32::NEG_INFINITY] {
        let cs = trace(&cov, 6, 5, 128, scalar(t), &distance);
        assert_eq!(sorted(&cs[0]), vec![(1, 1), (1, 3), (4, 1), (4, 3)], "{t}");
    }
}

#[test]
fn a_tolerance_is_held_against_the_distance_in_fractions_of_a_pixel() {
    // Three steps of one pixel: every corner is 0.70710677 off its neighbours' line.
    let mut cov = vec![0u8; 25];
    for (x, y) in [(1, 1), (1, 2), (2, 2), (1, 3), (2, 3), (3, 3)] {
        cov[y * 5 + x] = 255;
    }
    let corners = vec![(1, 1), (2, 1), (2, 2), (3, 2), (3, 3), (4, 3), (4, 4), (1, 4)];
    let below = 0.707_106_7f32;
    assert!(below < std::f32::consts::FRAC_1_SQRT_2);
    for t in [0.0, 0.5, below] {
        let cs = trace(&cov, 5, 5, 128, scalar(t), &distance);
        assert_eq!(cs[0].points, corners, "{t}");
    }
    // From there on no point is left to run a line from: the walk stays.
    let cs = trace(&cov, 5, 5, 128, scalar(0.708), &distance);
    assert_eq!(cs[0].points.len(), 12);
    assert!(cs[0].outer);
}

#[test]
fn coverage_that_does_not_reach_is_not_traced_whatever_the_extent() {
    let none = trace(&[255u8; 4], usize::MAX, usize::MAX, 128, scalar(0.0), &distance);
    assert!(none.is_empty());
    assert!(trace(&[255u8; 4], usize::MAX, 0, 128, scalar(0.0), &distance).is_empty());
    assert!(trace(&[255u8; 11], 4, 3, 128, scalar(0.0), &distance).is_empty());
    assert_eq!(trace(&[255u8; 13], 4, 3, 128, scalar(0.0), &distance).len(), 1);
}

#[test]
fn signed_areas_add_up_to_the_selected_pixels() {
    let (w, h) = (4usize, 3usize);
    for bits in 0u32..1 << (w * h) {
        let cov: Vec<u8> = (0..w * h).map(|i| if bits >> i & 1 == 1 { 255 } else { 0 }).collect();
        let mut twice = 0i64;
        for c in &trace(&cov, w, h, 128, scalar(0.0), &distance) {
            let mut own = 0i64;
            for (i, p) in c.points.iter().enumerate() {
                let q = c.points[(i + 1) % c.points.len()];
                own += (p.0 * q.1) as i64 - (q.0 * p.1) as i64;
            }
            assert_eq!(c.outer, own > 0, "{bits:b}");
            twice += own;
        }
        assert_eq!(twice, 2 * bits.count_ones() as i64, "{bits:b}");
    }
}
