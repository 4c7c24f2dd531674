//! What the RGB display transform did at ingest, and the rule for when it
//! may touch pixels.
//!
//! Compiling and running an ICC transform is the colour engine's work. What is
//! decided here is what its outcome means: only a profile that compiled may
//! change a pixel, and a missing or broken profile is reported instead of
//! failing the image.
use vstd::prelude::*;

verus! {

/// What the display transform did, so that a panel can say it.
#[derive(Debug, Clone, Copy, PartialEq, Eq, Structural)]
pub enum DisplayTreatment {
    /// An embedded profile compiled and the pixels were transformed.
    Managed,
    /// No embedded profile: the bytes are taken to be sRGB already.
    AssumedSrgb,
    /// A profile was present but did not compile; treated as sRGB.
    ProfileRejected,
}

/// What became of an image's embedded profile in the colour engine.
#[derive(Debug)]
pub enum ProfileOutcome {
    /// The file carried no profile.
    Absent,
    /// The profile, or the working profile, did not compile.
    Rejected,
    /// The transform compiled; these are the transformed pixels.
    Applied(Vec<u8>),
}

impl DisplayTreatment {
    pub open spec fn label_text(self) -> Seq<char> {
        match self {
            DisplayTreatment::Managed => "ICC managed"@,
            DisplayTreatment::AssumedSrgb => "sRGB assumed"@,
            DisplayTreatment::ProfileRejected => "sRGB assumed (embedded profile rejected)"@,
        }
    }

    /// A short phrase for the panel's colour row.
    pub fn label(self) -> (label: &'static str)
        ensures
            label@ == self.label_text(),
    {
        match self {
            DisplayTreatment::Managed => "ICC managed",
            DisplayTreatment::AssumedSrgb => "sRGB assumed",
            DisplayTreatment::ProfileRejected => "sRGB assumed (embedded profile rejected)",
        }
    }

    /// Whether real colour management happened. `false` is not an error, it
    /// is the honest majority case.
    pub fn is_managed(self) -> (managed: bool)
        ensures
            managed <==> self is Managed,
    {
        matches!(self, DisplayTreatment::Managed)
    }

    /// The treatment's number on the wire.
    pub open spec fn code(self) -> u8 {
        match self {
            DisplayTreatment::Managed => 0,
            DisplayTreatment::AssumedSrgb => 1,
            DisplayTreatment::ProfileRejected => 2,
        }
    }
}

/// The treatment's number on the wire.
pub fn display_code(treatment: DisplayTreatment) -> (code: u8)
    ensures
        code == treatment.code(),
{
    match treatment {
        DisplayTreatment::Managed => 0,
        DisplayTreatment::AssumedSrgb => 1,
        DisplayTreatment::ProfileRejected => 2,
    }
}

/// The pixels and the treatment that follow from a profile's outcome.
pub open spec fn settled(before: Seq<u8>, outcome: ProfileOutcome) -> (Seq<u8>, DisplayTreatment) {
    match outcome {
        ProfileOutcome::Absent => (before, DisplayTreatment::AssumedSrgb),
        ProfileOutcome::Rejected => (before, DisplayTreatment::ProfileRejected),
        ProfileOutcome::Applied(pixels) => (pixels@, DisplayTreatment::Managed),
    }
}

/// Settle a straight RGBA8 buffer into the working sRGB space, given what the
/// colour engine made of the embedded profile. Untagged pixels and pixels
/// under a rejected profile pass through untouched.
pub fn to_working_srgb(rgba: &mut Vec<u8>, outcome: ProfileOutcome) -> (treatment: DisplayTreatment)
    ensures
        final(rgba)@ == settled(old(rgba)@, outcome).0,
        treatment == settled(old(rgba)@, outcome).1,
{
    match outcome {
        ProfileOutcome::Absent => DisplayTreatment::AssumedSrgb,
        ProfileOutcome::Rejected => DisplayTreatment::ProfileRejected,
        ProfileOutcome::Applied(pixels) => {
            *rgba = pixels;
            DisplayTreatment::Managed
        },
    }
}

/// Pixels only ever change under a managed treatment.
pub proof fn only_a_managed_image_changes(before: Seq<u8>, outcome: ProfileOutcome)
    ensures
        settled(before, outcome).0 != before ==> settled(before, outcome).1 is Managed,
{
}

} // verus!
