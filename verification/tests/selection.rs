use image_js::coverage::SelectionCoverage;
use image_js::selection::{CombineMode, SessionSelection};

fn rect(w: u32, h: u32, x0: u32, y0: u32, rw: u32, rh: u32) -> SelectionCoverage {
    let mut d = vec![0u8; (w * h) as usize];
    for y in y0..y0 + rh {
        for x in x0..x0 + rw {
            d[(y * w + x) as usize] = 255;
        }
    }
    SelectionCoverage::from_data(w, h, d).expect("sized")
}

fn rect_shape(w: u32, h: u32) -> SelectionCoverage {
    rect(w, h, 1, 1, 2, 2)
}

fn map2(
    a: &SelectionCoverage,
    b: &SelectionCoverage,
    f: impl Fn(u8, u8) -> u8,
) -> SelectionCoverage {
    let data = a.data().iter().zip(b.data()).map(|(x, y)| f(*x, *y)).collect();
    SelectionCoverage::from_data(a.width(), a.height(), data).expect("sized")
}

fn combine(old: &SelectionCoverage, new: &SelectionCoverage, mode: CombineMode) -> SelectionCoverage {
    match mode {
        CombineMode::Replace => map2(old, new, |_, n| n),
        CombineMode::Add => map2(old, new, |o, n| o.max(n)),
        CombineMode::Subtract => map2(old, new, |o, n| o.min(255 - n)),
        CombineMode::Intersect => map2(old, new, |o, n| o.min(n)),
    }
}

fn inverse(c: &SelectionCoverage) -> SelectionCoverage {
    map2(c, c, |v, _| 255 - v)
}

/// A box blur of radius one.
fn soften(c: &SelectionCoverage) -> SelectionCoverage {
    let (w, h) = (c.width(), c.height());
    let at = |x: i64, y: i64| -> u32 {
        if x < 0 || y < 0 || x >= w as i64 || y >= h as i64 {
            0
        } else {
            c.coverage_at(x as u32, y as u32) as u32
        }
    };
    let mut d = Vec::new();
    for y in 0..h as i64 {
        for x in 0..w as i64 {
            let sum: u32 =
                (-1..=1).flat_map(|j| (-1..=1).map(move |i| (i, j))).map(|(i, j)| at(x + i, y + j)).sum();
            d.push((sum / 9) as u8);
        }
    }
    SelectionCoverage::from_data(w, h, d).expect("sized")
}

#[test]
fn unbound_shape_application_errors() {
    let mut s = SessionSelection::new();
    assert!(s.apply_shape(rect_shape(4, 4), CombineMode::Replace, &combine).is_err());
    assert!(s.select_all().is_err());
    assert!(s.invert(&inverse).is_err());
}

#[test]
fn replace_adopts_the_shape_and_bumps_revision() {
    let mut s = SessionSelection::new();
    s.bind(7, 4, 4);
    let r0 = s.revision();
    s.apply_shape(rect_shape(4, 4), CombineMode::Replace, &combine).unwrap();
    assert!(s.revision() > r0);
    let cov = s.coverage().unwrap();
    assert_eq!(cov.coverage_at(1, 1), 255);
    assert_eq!(cov.coverage_at(0, 0), 0);
}

#[test]
fn subtract_from_no_selection_starts_from_full() {
    let mut s = SessionSelection::new();
    s.bind(7, 4, 4);
    s.apply_shape(rect_shape(4, 4), CombineMode::Subtract, &combine).unwrap();
    let cov = s.coverage().unwrap();
    assert_eq!(cov.coverage_at(1, 1), 0, "subtracted hole");
    assert_eq!(cov.coverage_at(0, 0), 255, "rest stays (implicit full)");
}

#[test]
fn intersect_from_no_selection_is_the_shape() {
    let mut s = SessionSelection::new();
    s.bind(7, 4, 4);
    s.apply_shape(rect_shape(4, 4), CombineMode::Intersect, &combine).unwrap();
    let cov = s.coverage().unwrap();
    assert_eq!(cov.coverage_at(1, 1), 255);
    assert_eq!(cov.coverage_at(0, 0), 0);
}

#[test]
fn dimension_mismatch_is_rejected() {
    let mut s = SessionSelection::new();
    s.bind(7, 8, 8);
    assert!(s.apply_shape(rect_shape(4, 4), CombineMode::Replace, &combine).is_err());
}

#[test]
fn rebind_same_image_keeps_rebind_other_drops() {
    let mut s = SessionSelection::new();
    s.bind(7, 4, 4);
    s.apply_shape(rect_shape(4, 4), CombineMode::Replace, &combine).unwrap();
    s.bind(7, 4, 4);
    assert!(s.coverage().is_some());
    s.bind(8, 4, 4);
    assert!(s.coverage().is_none());
}

#[test]
fn mask_for_gates_on_handle_and_triviality() {
    let mut s = SessionSelection::new();
    s.bind(7, 4, 4);
    assert!(s.mask_for(7).is_none(), "no selection → no mask");
    s.select_all().unwrap();
    assert!(s.mask_for(7).is_none(), "all-one is the trivial mask");
    s.apply_shape(rect_shape(4, 4), CombineMode::Replace, &combine).unwrap();
    assert!(s.mask_for(7).is_some());
    assert!(s.mask_for(9).is_none(), "a different handle is unmasked");
}

#[test]
fn clear_returns_to_no_selection() {
    let mut s = SessionSelection::new();
    s.bind(7, 4, 4);
    s.apply_shape(rect_shape(4, 4), CombineMode::Replace, &combine).unwrap();
    let r = s.revision();
    s.clear();
    assert!(s.coverage().is_none());
    assert!(s.revision() > r);
    let r2 = s.revision();
    s.clear();
    assert_eq!(s.revision(), r2);
}

#[test]
fn invert_of_no_selection_is_the_empty_selection() {
    let mut s = SessionSelection::new();
    s.bind(7, 4, 4);
    s.invert(&inverse).unwrap();
    let cov = s.coverage().unwrap();
    assert!(cov.is_all_zero(), "everything inverts to nothing");
}

#[test]
fn feather_requires_an_explicit_selection() {
    let mut s = SessionSelection::new();
    s.bind(7, 8, 8);
    assert!(s.feather(&soften).is_err());
    s.apply_shape(rect(8, 8, 2, 2, 4, 4), CombineMode::Replace, &combine).unwrap();
    s.feather(&soften).unwrap();
    let cov = s.coverage().unwrap();
    let edge = cov.coverage_at(1, 4);
    assert!(edge > 0 && edge < 255, "feathered edge is soft ({edge})");
}

#[test]
fn a_transfer_keeps_a_selection_of_the_same_extent_only() {
    let mut s = SessionSelection::new();
    s.bind(7, 4, 4);
    s.apply_shape(rect_shape(4, 4), CombineMode::Replace, &combine).unwrap();
    assert!(s.transfer(8, 4, 4));
    assert!(s.mask_for(8).is_some() && s.mask_for(7).is_none());
    assert!(!s.transfer(9, 4, 5));
    assert!(s.coverage().is_none());
    let b = s.bound().expect("bound");
    assert_eq!((b.handle, b.width, b.height), (9, 4, 5));
}
