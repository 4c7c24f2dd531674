use image_js::display::{display_code, to_working_srgb, DisplayTreatment, ProfileOutcome};

#[test]
fn untagged_pixels_pass_through_as_assumed_srgb() {
    let mut rgba = vec![10, 20, 30, 255, 200, 100, 50, 255];
    let before = rgba.clone();
    let treatment = to_working_srgb(&mut rgba, ProfileOutcome::Absent);
    assert_eq!(treatment, DisplayTreatment::AssumedSrgb);
    assert!(!treatment.is_managed());
    assert_eq!(rgba, before, "untagged pixels must not be altered");
}

#[test]
fn a_broken_profile_falls_back_rather_than_failing() {
    let mut rgba = vec![10, 20, 30, 255];
    let before = rgba.clone();
    let treatment = to_working_srgb(&mut rgba, ProfileOutcome::Rejected);
    assert_eq!(treatment, DisplayTreatment::ProfileRejected);
    assert_eq!(rgba, before, "a rejected profile leaves pixels untouched");
    assert!(treatment.label().contains("rejected"));
}

#[test]
fn labels_report_the_unmanaged_states_honestly() {
    assert_eq!(DisplayTreatment::AssumedSrgb.label(), "sRGB assumed");
    assert!(DisplayTreatment::Managed.is_managed());
    assert!(!DisplayTreatment::ProfileRejected.is_managed());
}

#[test]
fn an_applied_profile_is_managed_and_its_pixels_are_taken() {
    let mut rgba = vec![10, 20, 30, 255];
    let treatment = to_working_srgb(&mut rgba, ProfileOutcome::Applied(vec![11, 21, 31, 255]));
    assert_eq!(treatment, DisplayTreatment::Managed);
    assert_eq!(rgba, vec![11, 21, 31, 255]);
    assert_eq!(display_code(treatment), 0);
    assert_eq!(display_code(DisplayTreatment::AssumedSrgb), 1);
    assert_eq!(display_code(DisplayTreatment::ProfileRejected), 2);
}
