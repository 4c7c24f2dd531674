//! The CMYK ingest cast: four inks to straight RGBA8.
//!
//! With a usable embedded profile the colour engine converts the ink. Without
//! one there is no free reference profile to assume, so the device formula
//! `R = 255·(1 − C/255)·(1 − K/255)` (and M, Y likewise) is applied and the
//! result is reported as not colour-managed. A broken profile never fails the
//! decode.
use crate::errors::IngestError;
use vstd::prelude::*;

verus! {

/// What became of a CMYK image's embedded profile in the colour engine.
#[derive(Debug)]
pub enum InkOutcome {
    /// The file carried no profile.
    Absent,
    /// The working destination profile could not be made; the engine's words.
    NoDestination(String),
    /// The profile cannot drive the CMYK lane.
    Rejected,
    /// The transform compiled; these are the converted pixels.
    Applied(Vec<u8>),
}

/// One channel of the multiplicative ink model, rounded.
pub open spec fn inked(ink: u8, black: u8) -> u8 {
    (((255 - ink) * (255 - black) * 2 + 255) / 510) as u8
}

/// The device conversion of packed four-ink pixels. A trailing partial pixel
/// is dropped; alpha is opaque, ink carries no transparency.
pub open spec fn device_rgba(cmyk: Seq<u8>) -> Seq<u8> {
    Seq::new(
        cmyk.len() / 4 * 4,
        |i: int|
            if i % 4 == 3 {
                255
            } else {
                inked(cmyk[i], cmyk[i / 4 * 4 + 3])
            },
    )
}

fn ink(level: u8, black: u8) -> (v: u8)
    ensures
        v == inked(level, black),
{
    proof {
        assert(0 <= (255 - level) * (255 - black) <= 255 * 255) by (nonlinear_arith)
            requires
                0 <= level <= 255,
                0 <= black <= 255,
        ;
    }
    (((255 - level as u32) * (255 - black as u32) * 2 + 255) / 510) as u8
}

/// The uncalibrated device CMYK to RGBA8 conversion.
pub fn cmyk_device_to_rgba8(cmyk: &[u8]) -> (rgba: Vec<u8>)
    ensures
        rgba@ == device_rgba(cmyk@),
{
    let len: usize = cmyk.len();
    let n: usize = len / 4 * 4;
    let mut out: Vec<u8> = Vec::new();
    let mut i: usize = 0;
    while i < n
        invariant
            len == cmyk@.len(),
            n == len / 4 * 4,
            i <= n,
            out@.len() == i,
            forall|j: int| 0 <= j < i ==> out@[j] == #[trigger] device_rgba(cmyk@)[j],
        decreases n - i,
    {
        let v: u8 = if i % 4 == 3 {
            255
        } else {
            ink(cmyk[i], cmyk[i / 4 * 4 + 3])
        };
        out.push(v);
        i = i + 1;
    }
    proof {
        assert(out@ =~= device_rgba(cmyk@));
    }
    out
}

/// Convert packed CMYK8 to straight RGBA8: the pixels, and whether they were
/// colour-managed. Only a transform that compiled is managed; an absent or
/// rejected profile falls back to the device formula.
pub fn cmyk8_to_rgba8(cmyk: &[u8], profile: InkOutcome) -> (cast: Result<
    (Vec<u8>, bool),
    IngestError,
>)
    ensures
        cast is Err <==> profile is NoDestination,
        cast matches Err(e) ==> e.is_unsupported(
            "CMYK ingest destination: "@ + profile->NoDestination_0@,
        ),
        cast matches Ok(c) ==> (match profile {
            InkOutcome::Applied(v) => c.0@ == v@ && c.1,
            _ => c.0@ == device_rgba(cmyk@) && !c.1,
        }),
{
    match profile {
        InkOutcome::Applied(v) => Ok((v, true)),
        InkOutcome::NoDestination(why) => {
            let mut s: String = "CMYK ingest destination: ".to_owned();
            s.append(why.as_str());
            Err(IngestError::Unsupported(s))
        },
        InkOutcome::Absent => Ok((cmyk_device_to_rgba8(cmyk), false)),
        InkOutcome::Rejected => Ok((cmyk_device_to_rgba8(cmyk), false)),
    }
}

/// More ink never brightens a channel, no ink is paper white and full ink is
/// black: the device formula cannot invert an image.
pub proof fn ink_only_darkens(a: u8, b: u8, black: u8, blacker: u8)
    requires
        a <= b,
        black <= blacker,
    ensures
        inked(b, blacker) <= inked(a, black),
        inked(0, 0) == 255,
        inked(255, black) == 0,
        inked(a, 255) == 0,
{
    assert((255 - b) * (255 - blacker) <= (255 - a) * (255 - black)) by (nonlinear_arith)
        requires
            0 <= a <= b <= 255,
            0 <= black <= blacker <= 255,
    ;
    assert(0 <= (255 - b) * (255 - blacker)) by (nonlinear_arith)
        requires
            0 <= b <= 255,
            0 <= blacker <= 255,
    ;
    assert((255 - a) * (255 - black) <= 255 * 255) by (nonlinear_arith)
        requires
            0 <= a <= 255,
            0 <= black <= 255,
    ;
    assert((255 - 255u8) * (255 - black) == 0) by (nonlinear_arith);
    assert((255 - a) * (255 - 255u8) == 0) by (nonlinear_arith);
}

/// Each ink takes away its own colour: cyan red, magenta green and yellow blue, and
/// black all three. A colour is the nearest byte to what both leave of it, and the
/// result is opaque.
pub proof fn each_ink_takes_away_its_own_colour(cmyk: Seq<u8>, p: int, c: int)
    requires
        0 <= p < cmyk.len() / 4,
        0 <= c < 3,
    ensures
        ({
            let left = (255 - cmyk[4 * p + c]) * (255 - cmyk[4 * p + 3]);
            -127 <= 255 * device_rgba(cmyk)[4 * p + c] - left <= 127
        }),
        device_rgba(cmyk)[4 * p + 3] == 255,
        device_rgba(cmyk).len() == cmyk.len() / 4 * 4,
{
    assert((4 * p + c) / 4 == p && (4 * p + c) % 4 == c);
    assert((4 * p + 3) % 4 == 3);
    let (i, k) = (cmyk[4 * p + c], cmyk[4 * p + 3]);
    assert(0 <= (255 - i) * (255 - k) <= 255 * 255) by (nonlinear_arith)
        requires
            0 <= i <= 255,
            0 <= k <= 255,
    ;
}

} // verus!
