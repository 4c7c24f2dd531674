use image_js::cmyk::{cmyk8_to_rgba8, cmyk_device_to_rgba8, InkOutcome};
use image_js::errors::IngestError;

#[test]
fn image_editor_ingest_cmyk_device_fallback_maps_ink_corners() {
    let cmyk = vec![
        0, 0, 0, 0, // white  -> 255,255,255
        255, 0, 0, 0, // cyan   -> 0,255,255
        0, 255, 0, 0, // magenta-> 255,0,255
        0, 0, 255, 0, // yellow -> 255,255,0
        0, 0, 0, 255, // black  -> 0,0,0
    ];
    let rgba = cmyk_device_to_rgba8(&cmyk);
    assert_eq!(&rgba[0..4], &[255, 255, 255, 255], "paper white");
    assert_eq!(&rgba[4..8], &[0, 255, 255, 255], "solid cyan");
    assert_eq!(&rgba[8..12], &[255, 0, 255, 255], "solid magenta");
    assert_eq!(&rgba[12..16], &[255, 255, 0, 255], "solid yellow");
    assert_eq!(&rgba[16..20], &[0, 0, 0, 255], "solid K");
    for px in rgba.chunks_exact(4) {
        assert_eq!(px[3], 255, "alpha synthesised to opaque");
    }
}

#[test]
fn image_editor_ingest_cmyk_no_icc_is_uncalibrated_fallback() {
    let cmyk = vec![0u8, 0, 0, 0, 255, 0, 0, 0];
    let (rgba, managed) =
        cmyk8_to_rgba8(&cmyk, InkOutcome::Absent).expect("device fallback never fails");
    assert!(!managed, "no ICC must take the uncalibrated path");
    assert_eq!(rgba.len(), cmyk.len(), "pixel-for-pixel");
    assert_eq!(&rgba[0..4], &[255, 255, 255, 255], "paper white");
}

#[test]
fn image_editor_ingest_cmyk_bad_profile_falls_back_not_errors() {
    let cmyk = vec![0u8, 0, 0, 0];
    let (rgba, managed) = cmyk8_to_rgba8(&cmyk, InkOutcome::Rejected).expect("must fall back");
    assert!(!managed, "an RGB source profile cannot drive the CMYK lane");
    assert_eq!(&rgba[0..4], &[255, 255, 255, 255]);
}

#[test]
fn a_managed_cast_is_handed_through_and_a_missing_destination_is_refused() {
    let (rgba, managed) =
        cmyk8_to_rgba8(&[1, 2, 3, 4], InkOutcome::Applied(vec![9, 8, 7, 255])).unwrap();
    assert!(managed);
    assert_eq!(rgba, vec![9, 8, 7, 255]);
    let err = cmyk8_to_rgba8(&[1, 2, 3, 4], InkOutcome::NoDestination("why".into())).unwrap_err();
    assert!(matches!(err, IngestError::Unsupported(_)), "got {err:?}");
    assert!(err.to_text().contains("CMYK ingest destination: why"));
}

#[test]
fn the_ink_model_agrees_with_single_precision_everywhere() {
    for ink in 0..=255u8 {
        for k in 0..=255u8 {
            let (c, b) = (f32::from(ink) / 255.0, f32::from(k) / 255.0);
            let want = ((1.0 - c) * (1.0 - b) * 255.0 + 0.5) as u8;
            assert_eq!(cmyk_device_to_rgba8(&[ink, 0, 0, k])[0], want, "ink {ink} black {k}");
        }
    }
}

#[test]
fn more_ink_never_lightens() {
    for k in (0..=255u8).step_by(15) {
        let mut last = 255u8;
        for ink in 0..=255u8 {
            let v = cmyk_device_to_rgba8(&[ink, 0, 0, k])[0];
            assert!(v <= last);
            last = v;
        }
    }
}
