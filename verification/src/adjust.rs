//! The adjustment chain: which stages run, in which order, and what the chain
//! leaves behind.
//!
//! A stage runs only when it is not neutral, and the order of the stages is
//! fixed: input remaps first (they define the working range), then tone, colour
//! grading and chroma, then the stages that collapse the range, then spatial
//! filters. The tone curve is a table lookup over the result and needs no
//! device. Every stage is a device dispatch under the bound selection; running
//! them is the host's work.
use crate::coverage::SelectionCoverage;
use crate::errors::IngestError;
use crate::scalar::{Scalar, ONE, ZERO};
use crate::strings::push_len;
use vstd::prelude::*;

verus! {

/// Positive zero.
pub open spec fn zero() -> Scalar {
    crate::scalar::zero()
}

/// One.
pub open spec fn one() -> Scalar {
    crate::scalar::one()
}

/// Whether three numbers equal three others.
pub open spec fn equal3(a: [Scalar; 3], b: [Scalar; 3]) -> bool {
    a@[0].equals(b@[0]) && a@[1].equals(b@[1]) && a@[2].equals(b@[2])
}

/// Whether four numbers equal four others.
pub open spec fn equal4(a: [Scalar; 4], b: [Scalar; 4]) -> bool {
    a@[0].equals(b@[0]) && a@[1].equals(b@[1]) && a@[2].equals(b@[2]) && a@[3].equals(b@[3])
}

fn same3(a: [Scalar; 3], b: [Scalar; 3]) -> (same: bool)
    ensures
        same <==> equal3(a, b),
{
    a[0].same(b[0]) && a[1].same(b[1]) && a[2].same(b[2])
}

fn same4(a: [Scalar; 4], b: [Scalar; 4]) -> (same: bool)
    ensures
        same <==> equal4(a, b),
{
    a[0].same(b[0]) && a[1].same(b[1]) && a[2].same(b[2]) && a[3].same(b[3])
}

fn scalar(bits: u32) -> (s: Scalar)
    ensures
        s.bits == bits,
{
    Scalar { bits }
}

/// Composite levels. Neutral: black 0, white 1, gamma 1, output 0 to 1.
#[derive(Debug, Clone, Copy)]
pub struct LevelsParams {
    pub in_black: Scalar,
    pub in_white: Scalar,
    pub gamma: Scalar,
    pub out_black: Scalar,
    pub out_white: Scalar,
}

/// Per-channel levels: black, white and gamma for each of r, g, b. Neutral:
/// 0, 1, 1 per channel.
#[derive(Debug, Clone, Copy)]
pub struct LevelsRgbParams {
    pub r: [Scalar; 3],
    pub g: [Scalar; 3],
    pub b: [Scalar; 3],
}

/// Colour balance: one offset per opponent axis per tonal range. All zero is
/// off.
#[derive(Debug, Clone, Copy)]
pub struct ColorBalanceParams {
    pub shadows: [Scalar; 3],
    pub midtones: [Scalar; 3],
    pub highlights: [Scalar; 3],
}

/// A coloured gel. Density zero is off, whatever the colour.
#[derive(Debug, Clone, Copy)]
pub struct PhotoFilterParams {
    pub color: [Scalar; 3],
    pub density: Scalar,
    pub preserve_luminosity: bool,
}

/// The channel matrix: a row of three inputs and a constant per output.
#[derive(Debug, Clone, Copy)]
pub struct ChannelMixerParams {
    pub r: [Scalar; 4],
    pub g: [Scalar; 4],
    pub b: [Scalar; 4],
}

/// The six hue-sector weights of a grayscale mix, behind an explicit switch.
#[derive(Debug, Clone, Copy)]
pub struct BlackWhiteParams {
    pub enabled: bool,
    /// reds, yellows, greens, cyans, blues, magentas.
    pub weights: [Scalar; 6],
}

/// The adjustment parameters a panel commits.
#[derive(Debug, Clone, Copy)]
pub struct AdjustParams {
    pub exposure_ev: Scalar,
    pub brightness: Scalar,
    pub contrast: Scalar,
    pub saturation: Scalar,
    pub temp: Scalar,
    pub tint: Scalar,
    pub levels: LevelsParams,
    /// A composite tone table, applied after every other stage.
    pub curve_lut: Option<[u8; 256]>,
    pub blur_sigma: Scalar,
    pub sharpen_amount: Scalar,
    pub hue_degrees: Scalar,
    pub invert: bool,
    pub vibrance: Scalar,
    pub color_balance: ColorBalanceParams,
    pub photo_filter: PhotoFilterParams,
    pub channel_mixer: ChannelMixerParams,
    pub levels_rgb: LevelsRgbParams,
    pub black_white: BlackWhiteParams,
    pub posterize: Option<Scalar>,
    pub threshold: Option<Scalar>,
}

impl LevelsParams {
    /// Whether the stage changes nothing.
    pub open spec fn neutral(self) -> bool {
        &&& self.in_black.equals(zero())
        &&& self.in_white.equals(one())
        &&& self.gamma.equals(one())
        &&& self.out_black.equals(zero())
        &&& self.out_white.equals(one())
    }

    pub fn is_identity(&self) -> (identity: bool)
        ensures
            identity <==> self.neutral(),
    {
        let (z, u): (Scalar, Scalar) = (scalar(ZERO), scalar(ONE));
        self.in_black.same(z) && self.in_white.same(u) && self.gamma.same(u) && self.out_black.same(
            z,
        ) && self.out_white.same(u)
    }
}

impl LevelsParams {
    /// Whether these are the parameters that a panel starts from.
    pub open spec fn preset(self) -> bool {
        &&& self.in_black == zero()
        &&& self.in_white == one()
        &&& self.gamma == one()
        &&& self.out_black == zero()
        &&& self.out_white == one()
    }
}

impl Default for LevelsParams {
    fn default() -> (levels: Self)
        ensures
            levels.preset(),
    {
        LevelsParams {
            in_black: scalar(ZERO),
            in_white: scalar(ONE),
            gamma: scalar(ONE),
            out_black: scalar(ZERO),
            out_white: scalar(ONE),
        }
    }
}

impl LevelsRgbParams {
    /// Whether the stage changes nothing.
    pub open spec fn neutral(self) -> bool {
        &&& equal3(self.r, [zero(), one(), one()])
        &&& equal3(self.g, [zero(), one(), one()])
        &&& equal3(self.b, [zero(), one(), one()])
    }

    pub fn is_identity(&self) -> (identity: bool)
        ensures
            identity <==> self.neutral(),
    {
        let row: [Scalar; 3] = [scalar(ZERO), scalar(ONE), scalar(ONE)];
        same3(self.r, row) && same3(self.g, row) && same3(self.b, row)
    }
}

impl LevelsRgbParams {
    /// Whether these are the parameters that a panel starts from.
    pub open spec fn preset(self) -> bool {
        &&& self.r@ == seq![zero(), one(), one()]
        &&& self.g@ == seq![zero(), one(), one()]
        &&& self.b@ == seq![zero(), one(), one()]
    }
}

impl Default for LevelsRgbParams {
    fn default() -> (levels: Self)
        ensures
            levels.preset(),
    {
        let row: [Scalar; 3] = [scalar(ZERO), scalar(ONE), scalar(ONE)];
        LevelsRgbParams { r: row, g: row, b: row }
    }
}

impl ColorBalanceParams {
    /// Whether the stage changes nothing.
    pub open spec fn neutral(self) -> bool {
        &&& equal3(self.shadows, [zero(), zero(), zero()])
        &&& equal3(self.midtones, [zero(), zero(), zero()])
        &&& equal3(self.highlights, [zero(), zero(), zero()])
    }

    pub fn is_identity(&self) -> (identity: bool)
        ensures
            identity <==> self.neutral(),
    {
        let row: [Scalar; 3] = [scalar(ZERO), scalar(ZERO), scalar(ZERO)];
        same3(self.shadows, row) && same3(self.midtones, row) && same3(self.highlights, row)
    }
}

impl ColorBalanceParams {
    /// Whether these are the parameters that a panel starts from.
    pub open spec fn preset(self) -> bool {
        &&& self.shadows@ == seq![zero(), zero(), zero()]
        &&& self.midtones@ == seq![zero(), zero(), zero()]
        &&& self.highlights@ == seq![zero(), zero(), zero()]
    }
}

impl Default for ColorBalanceParams {
    fn default() -> (balance: Self)
        ensures
            balance.preset(),
    {
        let row: [Scalar; 3] = [scalar(ZERO), scalar(ZERO), scalar(ZERO)];
        ColorBalanceParams { shadows: row, midtones: row, highlights: row }
    }
}

impl PhotoFilterParams {
    /// Whether the stage changes nothing.
    pub open spec fn neutral(self) -> bool {
        self.density.equals(zero())
    }

    pub fn is_identity(&self) -> (identity: bool)
        ensures
            identity <==> self.neutral(),
    {
        self.density.same(scalar(ZERO))
    }
}

impl PhotoFilterParams {
    /// Whether these are the parameters that a panel starts from.
    pub open spec fn preset(self) -> bool {
        &&& self.color@ == seq![
            (Scalar { bits: 0x3f6c_cccd }),
            (Scalar { bits: 0x3f23_9581 }),
            (Scalar { bits: 0x3eba_e148 }),
        ]
        &&& self.density == zero()
        &&& self.preserve_luminosity
    }
}

impl Default for PhotoFilterParams {
    /// The warming gel, at density zero: off until the panel raises it.
    fn default() -> (filter: Self)
        ensures
            filter.preset(),
    {
        PhotoFilterParams {
            color: [scalar(0x3f6c_cccd), scalar(0x3f23_9581), scalar(0x3eba_e148)],
            density: scalar(ZERO),
            preserve_luminosity: true,
        }
    }
}

impl ChannelMixerParams {
    /// Whether the stage changes nothing.
    pub open spec fn neutral(self) -> bool {
        &&& equal4(self.r, [one(), zero(), zero(), zero()])
        &&& equal4(self.g, [zero(), one(), zero(), zero()])
        &&& equal4(self.b, [zero(), zero(), one(), zero()])
    }

    pub fn is_identity(&self) -> (identity: bool)
        ensures
            identity <==> self.neutral(),
    {
        let (z, u): (Scalar, Scalar) = (scalar(ZERO), scalar(ONE));
        same4(self.r, [u, z, z, z]) && same4(self.g, [z, u, z, z]) && same4(self.b, [z, z, u, z])
    }
}

impl ChannelMixerParams {
    /// Whether these are the parameters that a panel starts from.
    pub open spec fn preset(self) -> bool {
        &&& self.r@ == seq![one(), zero(), zero(), zero()]
        &&& self.g@ == seq![zero(), one(), zero(), zero()]
        &&& self.b@ == seq![zero(), zero(), one(), zero()]
    }
}

impl Default for ChannelMixerParams {
    fn default() -> (mixer: Self)
        ensures
            mixer.preset(),
    {
        let (z, u): (Scalar, Scalar) = (scalar(ZERO), scalar(ONE));
        ChannelMixerParams { r: [u, z, z, z], g: [z, u, z, z], b: [z, z, u, z] }
    }
}

impl BlackWhiteParams {
    /// Whether these are the parameters that a panel starts from.
    pub open spec fn preset(self) -> bool {
        &&& !self.enabled
        &&& self.weights@ == seq![
            (Scalar { bits: 0x3ecc_cccd }),
            (Scalar { bits: 0x3f19_999a }),
            (Scalar { bits: 0x3ecc_cccd }),
            (Scalar { bits: 0x3f19_999a }),
            (Scalar { bits: 0x3e4c_cccd }),
            (Scalar { bits: 0x3f4c_cccd }),
        ]
    }
}

impl Default for BlackWhiteParams {
    /// The conventional mix (reds 0.4, yellows 0.6, greens 0.4, cyans 0.6,
    /// blues 0.2, magentas 0.8), switched off.
    fn default() -> (mix: Self)
        ensures
            mix.preset(),
    {
        BlackWhiteParams {
            enabled: false,
            weights: [
                scalar(0x3ecc_cccd),
                scalar(0x3f19_999a),
                scalar(0x3ecc_cccd),
                scalar(0x3f19_999a),
                scalar(0x3e4c_cccd),
                scalar(0x3f4c_cccd),
            ],
        }
    }
}

impl Default for AdjustParams {
    fn default() -> (params: Self)
        ensures
            params.unchanged(),
            params.exposure_ev == zero(),
            params.brightness == zero(),
            params.contrast == one(),
            params.saturation == one(),
            params.temp == zero(),
            params.tint == zero(),
            params.blur_sigma == zero(),
            params.sharpen_amount == zero(),
            params.hue_degrees == zero(),
            !params.invert,
            params.vibrance == zero(),
            params.curve_lut is None,
            params.posterize is None,
            params.threshold is None,
            params.levels.preset(),
            params.levels_rgb.preset(),
            params.color_balance.preset(),
            params.photo_filter.preset(),
            params.channel_mixer.preset(),
            params.black_white.preset(),
    {
        AdjustParams {
            exposure_ev: scalar(ZERO),
            brightness: scalar(ZERO),
            contrast: scalar(ONE),
            saturation: scalar(ONE),
            temp: scalar(ZERO),
            tint: scalar(ZERO),
            levels: LevelsParams::default(),
            curve_lut: None,
            blur_sigma: scalar(ZERO),
            sharpen_amount: scalar(ZERO),
            hue_degrees: scalar(ZERO),
            invert: false,
            vibrance: scalar(ZERO),
            color_balance: ColorBalanceParams::default(),
            photo_filter: PhotoFilterParams::default(),
            channel_mixer: ChannelMixerParams::default(),
            levels_rgb: LevelsRgbParams::default(),
            black_white: BlackWhiteParams::default(),
            posterize: None,
            threshold: None,
        }
    }
}

/// One device stage of the chain, with what it is dispatched with.
#[derive(Debug, Clone, Copy)]
pub enum Stage {
    /// Exposure, in stops.
    Exposure { ev: Scalar },
    /// Illuminant remap.
    WhiteBalance { temp: Scalar, tint: Scalar },
    /// Composite black point, white point, gamma and output range.
    Levels { levels: LevelsParams },
    /// Per-channel black point, white point and gamma.
    LevelsRgb { channels: LevelsRgbParams },
    /// Tone.
    BrightnessContrast { brightness: Scalar, contrast: Scalar },
    /// Opponent offsets per tonal range.
    ColorBalance { balance: ColorBalanceParams },
    /// Gel absorption.
    PhotoFilter { filter: PhotoFilterParams },
    /// Channel matrix.
    ChannelMixer { mixer: ChannelMixerParams },
    /// Chroma weighted by the saturation already there. The kernel's own global
    /// offset stays at zero, so that saturation is the one global control.
    Vibrance { amount: Scalar, saturation: Scalar },
    /// Global chroma.
    Saturation { amount: Scalar },
    /// Six-weight grayscale mix.
    BlackWhite { weights: [Scalar; 6] },
    /// Quantize to a number of levels.
    Posterize { count: Scalar },
    /// Quantize to black and white.
    Threshold { cut: Scalar },
    /// Hue rotation.
    HueRotate { degrees: Scalar },
    /// Per-colour negative.
    Invert,
    /// Separable Gaussian, horizontal and then vertical, as far out as the
    /// radius: three sigmas, rounded up, within the kernel's window.
    Blur { sigma: Scalar, radius: u32 },
    /// Unsharp against a fixed blur of what came before.
    Sharpen { amount: Scalar, threshold: Scalar, sigma: Scalar, radius: u32 },
}

impl Stage {
    /// The stage's place in the fixed order.
    pub open spec fn place(self) -> nat {
        match self {
            Stage::Exposure { .. } => 1,
            Stage::WhiteBalance { .. } => 2,
            Stage::Levels { .. } => 3,
            Stage::LevelsRgb { .. } => 4,
            Stage::BrightnessContrast { .. } => 5,
            Stage::ColorBalance { .. } => 6,
            Stage::PhotoFilter { .. } => 7,
            Stage::ChannelMixer { .. } => 8,
            Stage::Vibrance { .. } => 9,
            Stage::Saturation { .. } => 10,
            Stage::BlackWhite { .. } => 11,
            Stage::Posterize { .. } => 12,
            Stage::Threshold { .. } => 13,
            Stage::HueRotate { .. } => 14,
            Stage::Invert => 15,
            Stage::Blur { .. } => 16,
            Stage::Sharpen { .. } => 17,
        }
    }
}

/// 1.5: the blur that sharpening works against.
pub const SHARPEN_SIGMA: u32 = 0x3FC0_0000;

/// The reach of that blur.
pub const SHARPEN_RADIUS: u32 = 5;

/// The sharpening stage of an amount.
pub open spec fn sharpen(amount: Scalar) -> Stage {
    Stage::Sharpen {
        amount,
        threshold: zero(),
        sigma: Scalar { bits: SHARPEN_SIGMA },
        radius: SHARPEN_RADIUS,
    }
}

/// A list of one stage where it is switched on, and of none where it is not.
pub open spec fn gated(open: bool, stage: Stage) -> Seq<Stage> {
    if open {
        seq![stage]
    } else {
        Seq::empty()
    }
}

fn add_stage(out: &mut Vec<Stage>, open: bool, stage: Stage)
    ensures
        final(out)@ == old(out)@ + gated(open, stage),
{
    if open {
        out.push(stage);
    }
    proof {
        assert(out@ =~= old(out)@ + gated(open, stage));
    }
}

fn add_nothing(out: &mut Vec<Stage>, stage: Ghost<Stage>)
    ensures
        final(out)@ == old(out)@ + gated(false, stage@),
{
    proof {
        assert(out@ =~= old(out)@ + gated(false, stage@));
    }
}

impl AdjustParams {
    /// The exposure stage, where it runs.
    pub open spec fn exposure_stage(self) -> Seq<Stage> {
        gated(!self.exposure_ev.equals(zero()), Stage::Exposure { ev: self.exposure_ev })
    }

    /// The white balance stage, where it runs.
    pub open spec fn white_balance_stage(self) -> Seq<Stage> {
        gated(
            !self.temp.equals(zero()) || !self.tint.equals(zero()),
            Stage::WhiteBalance { temp: self.temp, tint: self.tint },
        )
    }

    /// The levels stage, where it runs.
    pub open spec fn levels_stage(self) -> Seq<Stage> {
        gated(!self.levels.neutral(), Stage::Levels { levels: self.levels })
    }

    /// The levels rgb stage, where it runs.
    pub open spec fn levels_rgb_stage(self) -> Seq<Stage> {
        gated(!self.levels_rgb.neutral(), Stage::LevelsRgb { channels: self.levels_rgb })
    }

    /// The brightness contrast stage, where it runs.
    pub open spec fn brightness_contrast_stage(self) -> Seq<Stage> {
        gated(
            !self.brightness.equals(zero()) || !self.contrast.equals(one()),
            Stage::BrightnessContrast { brightness: self.brightness, contrast: self.contrast },
        )
    }

    /// The color balance stage, where it runs.
    pub open spec fn color_balance_stage(self) -> Seq<Stage> {
        gated(!self.color_balance.neutral(), Stage::ColorBalance { balance: self.color_balance })
    }

    /// The photo filter stage, where it runs.
    pub open spec fn photo_filter_stage(self) -> Seq<Stage> {
        gated(!self.photo_filter.neutral(), Stage::PhotoFilter { filter: self.photo_filter })
    }

    /// The channel mixer stage, where it runs.
    pub open spec fn channel_mixer_stage(self) -> Seq<Stage> {
        gated(!self.channel_mixer.neutral(), Stage::ChannelMixer { mixer: self.channel_mixer })
    }

    /// The vibrance stage, where it runs.
    pub open spec fn vibrance_stage(self) -> Seq<Stage> {
        gated(
            !self.vibrance.equals(zero()),
            Stage::Vibrance { amount: self.vibrance, saturation: zero() },
        )
    }

    /// The saturation stage, where it runs.
    pub open spec fn saturation_stage(self) -> Seq<Stage> {
        gated(!self.saturation.equals(one()), Stage::Saturation { amount: self.saturation })
    }

    /// The black white stage, where it runs.
    pub open spec fn black_white_stage(self) -> Seq<Stage> {
        gated(self.black_white.enabled, Stage::BlackWhite { weights: self.black_white.weights })
    }

    /// The posterize stage, where it runs.
    pub open spec fn posterize_stage(self) -> Seq<Stage> {
        gated(self.posterize is Some, Stage::Posterize { count: self.posterize->0 })
    }

    /// The threshold stage, where it runs.
    pub open spec fn threshold_stage(self) -> Seq<Stage> {
        gated(self.threshold is Some, Stage::Threshold { cut: self.threshold->0 })
    }

    /// The hue rotate stage, where it runs.
    pub open spec fn hue_rotate_stage(self) -> Seq<Stage> {
        gated(!self.hue_degrees.equals(zero()), Stage::HueRotate { degrees: self.hue_degrees })
    }

    /// The invert stage, where it runs.
    pub open spec fn invert_stage(self) -> Seq<Stage> {
        gated(self.invert, Stage::Invert)
    }

    /// The blur stage, where it runs.
    pub open spec fn blur_stage(self, radius: u32) -> Seq<Stage> {
        gated(zero().below(self.blur_sigma), Stage::Blur { sigma: self.blur_sigma, radius })
    }

    /// The sharpen stage, where it runs.
    pub open spec fn sharpen_stage(self) -> Seq<Stage> {
        gated(zero().below(self.sharpen_amount), sharpen(self.sharpen_amount))
    }

    /// The input remaps: exposure, white balance and levels that run, in order.
    #[verifier::opaque]
    pub open spec fn remap_stages(self) -> Seq<Stage> {
        self.exposure_stage() + self.white_balance_stage() + self.levels_stage()
            + self.levels_rgb_stage()
    }

    /// The tone and colour grading that run, in order.
    #[verifier::opaque]
    pub open spec fn tone_stages(self) -> Seq<Stage> {
        self.brightness_contrast_stage() + self.color_balance_stage() + self.photo_filter_stage()
            + self.channel_mixer_stage()
    }

    /// The chroma stages that run, in order.
    #[verifier::opaque]
    pub open spec fn chroma_stages(self) -> Seq<Stage> {
        self.vibrance_stage() + self.saturation_stage() + self.black_white_stage()
    }

    /// The range-collapsing stages that run, in order.
    #[verifier::opaque]
    pub open spec fn quantize_stages(self) -> Seq<Stage> {
        self.posterize_stage() + self.threshold_stage()
    }

    /// The filters that run, in order, the blur out to `radius`.
    #[verifier::opaque]
    pub open spec fn filter_stages(self, radius: u32) -> Seq<Stage> {
        self.hue_rotate_stage() + self.invert_stage() + self.blur_stage(radius)
            + self.sharpen_stage()
    }

    /// The device stages that run, in the fixed order, the blur out to `radius`.
    pub open spec fn stages(self, radius: u32) -> Seq<Stage> {
        self.remap_stages() + self.tone_stages() + self.chroma_stages() + self.quantize_stages()
            + self.filter_stages(radius)
    }

    /// Whether a list is the plan of these parameters: the blur, where it runs,
    /// goes out to the radius of its sigma.
    pub open spec fn plans<F: Fn(Scalar) -> u32>(self, radius: F, list: Seq<Stage>) -> bool {
        if zero().below(self.blur_sigma) {
            exists|r: u32| #[trigger] radius.ensures((self.blur_sigma,), r) && list == self.stages(r)
        } else {
            list == self.stages(0)
        }
    }

    /// Whether some device stage runs.
    pub open spec fn staged(self) -> bool {
        ||| !self.exposure_ev.equals(zero())
        ||| !self.temp.equals(zero()) || !self.tint.equals(zero())
        ||| !self.levels.neutral()
        ||| !self.levels_rgb.neutral()
        ||| !self.brightness.equals(zero()) || !self.contrast.equals(one())
        ||| !self.color_balance.neutral()
        ||| !self.photo_filter.neutral()
        ||| !self.channel_mixer.neutral()
        ||| !self.vibrance.equals(zero())
        ||| !self.saturation.equals(one())
        ||| self.black_white.enabled
        ||| self.posterize is Some
        ||| self.threshold is Some
        ||| !self.hue_degrees.equals(zero())
        ||| self.invert
        ||| zero().below(self.blur_sigma)
        ||| zero().below(self.sharpen_amount)
    }

    /// Whether the whole chain changes nothing: no stage runs and no curve is
    /// set. A stage whose gate is shut contributes nothing, whatever its other
    /// fields hold.
    pub open spec fn unchanged(self) -> bool {
        !self.staged() && self.curve_lut is None
    }

    /// Do any of the extended stages run?
    pub fn has_extended_stage(&self) -> (extended: bool)
        ensures
            extended <==> {
                ||| !self.vibrance.equals(zero())
                ||| !self.color_balance.neutral()
                ||| !self.photo_filter.neutral()
                ||| !self.channel_mixer.neutral()
                ||| !self.levels_rgb.neutral()
                ||| self.black_white.enabled
                ||| self.posterize is Some
                ||| self.threshold is Some
            },
    {
        let z: Scalar = scalar(ZERO);
        !self.vibrance.same(z) || !self.color_balance.is_identity()
            || !self.photo_filter.is_identity() || !self.channel_mixer.is_identity()
            || !self.levels_rgb.is_identity() || self.black_white.enabled
            || self.posterize.is_some() || self.threshold.is_some()
    }

    /// Do any device stages run? The tone curve is a separate pass that needs
    /// no device.
    pub fn has_gpu_stage(&self) -> (staged: bool)
        ensures
            staged <==> self.staged(),
    {
        let (z, u): (Scalar, Scalar) = (scalar(ZERO), scalar(ONE));
        !self.exposure_ev.same(z) || !self.brightness.same(z) || !self.contrast.same(u)
            || !self.saturation.same(u) || !self.temp.same(z) || !self.tint.same(z)
            || !self.levels.is_identity() || z.lt(self.blur_sigma) || z.lt(self.sharpen_amount)
            || !self.hue_degrees.same(z) || self.invert || self.has_extended_stage()
    }

    /// Is the whole chain a no-op?
    pub fn is_identity(&self) -> (identity: bool)
        ensures
            identity <==> self.unchanged(),
    {
        !self.has_gpu_stage() && self.curve_lut.is_none()
    }

    fn plan_remap(&self, out: &mut Vec<Stage>)
        ensures
            final(out)@ == old(out)@ + self.remap_stages(),
    {
        reveal(AdjustParams::remap_stages);
        let z: Scalar = scalar(ZERO);
        add_stage(out, !self.exposure_ev.same(z), Stage::Exposure { ev: self.exposure_ev });
        add_stage(
            out,
            !self.temp.same(z) || !self.tint.same(z),
            Stage::WhiteBalance { temp: self.temp, tint: self.tint },
        );
        add_stage(out, !self.levels.is_identity(), Stage::Levels { levels: self.levels });
        add_stage(
            out,
            !self.levels_rgb.is_identity(),
            Stage::LevelsRgb { channels: self.levels_rgb },
        );
        proof {
            assert(out@ =~= old(out)@ + self.remap_stages());
        }
    }

    fn plan_tone(&self, out: &mut Vec<Stage>)
        ensures
            final(out)@ == old(out)@ + self.tone_stages(),
    {
        reveal(AdjustParams::tone_stages);
        let (z, u): (Scalar, Scalar) = (scalar(ZERO), scalar(ONE));
        add_stage(
            out,
            !self.brightness.same(z) || !self.contrast.same(u),
            Stage::BrightnessContrast { brightness: self.brightness, contrast: self.contrast },
        );
        add_stage(
            out,
            !self.color_balance.is_identity(),
            Stage::ColorBalance { balance: self.color_balance },
        );
        add_stage(
            out,
            !self.photo_filter.is_identity(),
            Stage::PhotoFilter { filter: self.photo_filter },
        );
        add_stage(
            out,
            !self.channel_mixer.is_identity(),
            Stage::ChannelMixer { mixer: self.channel_mixer },
        );
        proof {
            assert(out@ =~= old(out)@ + self.tone_stages());
        }
    }

    fn plan_chroma(&self, out: &mut Vec<Stage>)
        ensures
            final(out)@ == old(out)@ + self.chroma_stages(),
    {
        reveal(AdjustParams::chroma_stages);
        let (z, u): (Scalar, Scalar) = (scalar(ZERO), scalar(ONE));
        add_stage(
            out,
            !self.vibrance.same(z),
            Stage::Vibrance { amount: self.vibrance, saturation: z },
        );
        add_stage(out, !self.saturation.same(u), Stage::Saturation { amount: self.saturation });
        add_stage(
            out,
            self.black_white.enabled,
            Stage::BlackWhite { weights: self.black_white.weights },
        );
        proof {
            assert(out@ =~= old(out)@ + self.chroma_stages());
        }
    }

    fn plan_quantize(&self, out: &mut Vec<Stage>)
        ensures
            final(out)@ == old(out)@ + self.quantize_stages(),
    {
        reveal(AdjustParams::quantize_stages);
        if let Some(v) = self.posterize {
            add_stage(out, true, Stage::Posterize { count: v });
        } else {
            add_nothing(out, Ghost(Stage::Posterize { count: self.posterize->0 }));
        }
        if let Some(v) = self.threshold {
            add_stage(out, true, Stage::Threshold { cut: v });
        } else {
            add_nothing(out, Ghost(Stage::Threshold { cut: self.threshold->0 }));
        }
        proof {
            assert(out@ =~= old(out)@ + self.quantize_stages());
        }
    }

    fn plan_filter(&self, radius: u32, out: &mut Vec<Stage>)
        ensures
            final(out)@ == old(out)@ + self.filter_stages(radius),
    {
        reveal(AdjustParams::filter_stages);
        let z: Scalar = scalar(ZERO);
        add_stage(out, !self.hue_degrees.same(z), Stage::HueRotate { degrees: self.hue_degrees });
        add_stage(out, self.invert, Stage::Invert);
        add_stage(out, z.lt(self.blur_sigma), Stage::Blur { sigma: self.blur_sigma, radius });
        add_stage(out, z.lt(self.sharpen_amount), Stage::Sharpen {
                amount: self.sharpen_amount,
                threshold: z,
                sigma: scalar(SHARPEN_SIGMA),
                radius: SHARPEN_RADIUS,
            });
        proof {
            assert(out@ =~= old(out)@ + self.filter_stages(radius));
        }
    }

    /// The device stages to dispatch, in order. `radius` is how far out a blur of
    /// a sigma goes.
    pub fn plan<F: Fn(Scalar) -> u32>(&self, radius: &F) -> (stages: Vec<Stage>)
        requires
            radius.requires((self.blur_sigma,)),
        ensures
            self.plans(*radius, stages@),
    {
        let reach: u32 = if scalar(ZERO).lt(self.blur_sigma) {
            radius(self.blur_sigma)
        } else {
            0
        };
        let mut out: Vec<Stage> = Vec::new();
        self.plan_remap(&mut out);
        self.plan_tone(&mut out);
        self.plan_chroma(&mut out);
        self.plan_quantize(&mut out);
        self.plan_filter(reach, &mut out);
        proof {
            assert(out@ =~= self.stages(reach));
        }
        out
    }
}

/// The length of the extended parameter block.
///
/// ```text
///  0      vibrance
///  1..=3  colour balance shadows    (cyan-red, magenta-green, yellow-blue)
///  4..=6  colour balance midtones
///  7..=9  colour balance highlights
/// 10      black & white enabled (0 | 1)
/// 11..=16 black & white weights
/// 17      posterize enabled (0 | 1)
/// 18      posterize levels
/// 19      threshold enabled (0 | 1)
/// 20      threshold value
/// 21      photo filter density (0 = off)
/// 22..=24 photo filter colour (r, g, b)
/// 25      photo filter preserve-luminosity (0 | 1)
/// 26..=37 channel mixer rows r[4], g[4], b[4]
/// 38..=46 per-channel levels r[3], g[3], b[3]
/// ```
pub const ADJUST_EXT_LEN: usize = 47;

/// The parameters that a full block sets, and the ones it leaves alone.
pub open spec fn extends(before: AdjustParams, ext: Seq<Scalar>, after: AdjustParams) -> bool {
    &&& after.vibrance == ext[0]
    &&& after.color_balance.shadows@ == seq![ext[1], ext[2], ext[3]]
    &&& after.color_balance.midtones@ == seq![ext[4], ext[5], ext[6]]
    &&& after.color_balance.highlights@ == seq![ext[7], ext[8], ext[9]]
    &&& after.black_white.enabled == !ext[10].equals(zero())
    &&& after.black_white.weights@ == seq![ext[11], ext[12], ext[13], ext[14], ext[15], ext[16]]
    &&& after.posterize == (if ext[17].equals(zero()) {
        None
    } else {
        Some(ext[18])
    })
    &&& after.threshold == (if ext[19].equals(zero()) {
        None
    } else {
        Some(ext[20])
    })
    &&& after.photo_filter.density == ext[21]
    &&& after.photo_filter.color@ == seq![ext[22], ext[23], ext[24]]
    &&& after.photo_filter.preserve_luminosity == !ext[25].equals(zero())
    &&& after.channel_mixer.r@ == seq![ext[26], ext[27], ext[28], ext[29]]
    &&& after.channel_mixer.g@ == seq![ext[30], ext[31], ext[32], ext[33]]
    &&& after.channel_mixer.b@ == seq![ext[34], ext[35], ext[36], ext[37]]
    &&& after.levels_rgb.r@ == seq![ext[38], ext[39], ext[40]]
    &&& after.levels_rgb.g@ == seq![ext[41], ext[42], ext[43]]
    &&& after.levels_rgb.b@ == seq![ext[44], ext[45], ext[46]]
    &&& basics_kept(before, after)
}

/// Whether every parameter outside the extended block is the same.
pub open spec fn basics_kept(before: AdjustParams, after: AdjustParams) -> bool {
    &&& after.exposure_ev == before.exposure_ev
    &&& after.brightness == before.brightness
    &&& after.contrast == before.contrast
    &&& after.saturation == before.saturation
    &&& after.temp == before.temp
    &&& after.tint == before.tint
    &&& after.levels == before.levels
    &&& after.curve_lut == before.curve_lut
    &&& after.blur_sigma == before.blur_sigma
    &&& after.sharpen_amount == before.sharpen_amount
    &&& after.hue_degrees == before.hue_degrees
    &&& after.invert == before.invert
}

impl AdjustParams {
    /// Decode the flat extended block onto these parameters. An empty block
    /// leaves everything as it is; any other length than [`ADJUST_EXT_LEN`] is
    /// an error, never a half-applied chain.
    pub fn apply_extended(&mut self, ext: &[Scalar]) -> (done: Result<(), IngestError>)
        ensures
            done is Ok <==> ext@.len() == 0 || ext@.len() == ADJUST_EXT_LEN,
            done is Ok && ext@.len() > 0 ==> extends(*old(self), ext@, *final(self)),
            ext@.len() != ADJUST_EXT_LEN ==> *final(self) == *old(self),
            done matches Err(e) ==> e.is_unsupported(
                "extended adjust block must be 47 f32s or empty (got "@ + crate::strings::decimal(
                    ext@.len(),
                ) + ")"@,
            ),
    {
        if ext.len() == 0 {
            return Ok(());
        }
        if ext.len() != ADJUST_EXT_LEN {
            let mut s: String = "extended adjust block must be 47 f32s or empty (got ".to_owned();
            push_len(&mut s, ext.len());
            s.append(")");
            return Err(IngestError::Unsupported(s));
        }
        let z: Scalar = scalar(ZERO);
        self.vibrance = ext[0];
        self.color_balance =
        ColorBalanceParams {
            shadows: [ext[1], ext[2], ext[3]],
            midtones: [ext[4], ext[5], ext[6]],
            highlights: [ext[7], ext[8], ext[9]],
        };
        self.black_white =
        BlackWhiteParams {
            enabled: !ext[10].same(z),
            weights: [ext[11], ext[12], ext[13], ext[14], ext[15], ext[16]],
        };
        self.posterize =
        if ext[17].same(z) {
            None
        } else {
            Some(ext[18])
        };
        self.threshold =
        if ext[19].same(z) {
            None
        } else {
            Some(ext[20])
        };
        self.photo_filter =
        PhotoFilterParams {
            density: ext[21],
            color: [ext[22], ext[23], ext[24]],
            preserve_luminosity: !ext[25].same(z),
        };
        self.channel_mixer =
        ChannelMixerParams {
            r: [ext[26], ext[27], ext[28], ext[29]],
            g: [ext[30], ext[31], ext[32], ext[33]],
            b: [ext[34], ext[35], ext[36], ext[37]],
        };
        self.levels_rgb =
        LevelsRgbParams {
            r: [ext[38], ext[39], ext[40]],
            g: [ext[41], ext[42], ext[43]],
            b: [ext[44], ext[45], ext[46]],
        };
        Ok(())
    }
}

/// What the chain leaves behind: the device's pixels where a stage ran and the
/// image's own where none did, under the tone curve, through the selection.
pub open spec fn adjusted(
    image: Seq<u8>,
    params: AdjustParams,
    ran: Seq<u8>,
    selection: Option<SelectionCoverage>,
) -> Seq<u8> {
    let base = if params.staged() {
        ran
    } else {
        image
    };
    match params.curve_lut {
        None => base,
        Some(lut) => match selection {
            Some(cov) if base.len() == cov.columns() * cov.rows() * 4 =>
                crate::ingest::curved_through(base, lut@, cov.cells()),
            _ => crate::ingest::curved(base, lut@),
        },
    }
}

/// Finish the adjustment chain over an 8-bit image. `ran` holds what the
/// device made of [`AdjustParams::plan`]; it is not consulted when no stage
/// runs. The curve blends by the same coverage the device stages ran under.
pub fn adjust_rgba8(
    image: &[u8],
    params: &AdjustParams,
    ran: Vec<u8>,
    selection: Option<&SelectionCoverage>,
) -> (pixels: Vec<u8>)
    ensures
        pixels@ == adjusted(
            image@,
            *params,
            ran@,
            match selection {
                Some(c) => Some(*c),
                None => None,
            },
        ),
{
    let mut pixels: Vec<u8> = if params.has_gpu_stage() {
        ran
    } else {
        let mut copy: Vec<u8> = Vec::new();
        copy.extend_from_slice(image);
        copy
    };
    if let Some(lut) = params.curve_lut {
        match selection {
            Some(cov) => crate::ingest::apply_curve_lut_masked(&mut pixels, &lut, cov),
            None => crate::ingest::apply_curve_lut(&mut pixels, &lut),
        }
    }
    pixels
}

/// Every stage of `list` stands no later than place `top`, and
/// the list rises strictly.
#[verifier::opaque]
spec fn rising(list: Seq<Stage>, top: nat) -> bool {
    &&& forall|i: int| 0 <= i < list.len() ==> (#[trigger] list[i]).place() <= top
    &&& forall|i: int, j: int|
        0 <= i < j < list.len() ==> (#[trigger] list[i]).place() < (#[trigger] list[j]).place()
}

proof fn rises_on(list: Seq<Stage>, top: nat, open: bool, stage: Stage)
    requires
        rising(list, top),
        stage.place() == top + 1,
    ensures
        rising(list + gated(open, stage), top + 1),
{
    reveal(rising);
    let longer = list + gated(open, stage);
    assert forall|i: int| 0 <= i < longer.len() implies (#[trigger] longer[i]).place() <= top + 1 by {
        if i < list.len() {
            assert(longer[i] == list[i]);
        }
    }
    assert forall|i: int, j: int| 0 <= i < j < longer.len() implies (#[trigger] longer[i]).place()
        < (#[trigger] longer[j]).place() by {
        assert(longer[i] == list[i]);
        if j < list.len() {
            assert(longer[j] == list[j]);
        }
    }
}

proof fn remap_stages_rise(p: AdjustParams, list: Seq<Stage>)
    requires
        rising(list, 0),
    ensures
        rising(list + p.remap_stages(), 4),
{
    reveal(AdjustParams::remap_stages);
    let s0 = list;
    rises_on(s0, 0, !p.exposure_ev.equals(zero()), Stage::Exposure { ev: p.exposure_ev });
    let s1 = s0 + p.exposure_stage();
    rises_on(
        s1,
        1,
        !p.temp.equals(zero()) || !p.tint.equals(zero()),
        Stage::WhiteBalance { temp: p.temp, tint: p.tint },
    );
    let s2 = s1 + p.white_balance_stage();
    rises_on(s2, 2, !p.levels.neutral(), Stage::Levels { levels: p.levels });
    let s3 = s2 + p.levels_stage();
    rises_on(s3, 3, !p.levels_rgb.neutral(), Stage::LevelsRgb { channels: p.levels_rgb });
    let s4 = s3 + p.levels_rgb_stage();
    assert(list + p.remap_stages() =~= s4);
}

proof fn tone_stages_rise(p: AdjustParams, list: Seq<Stage>)
    requires
        rising(list, 4),
    ensures
        rising(list + p.tone_stages(), 8),
{
    reveal(AdjustParams::tone_stages);
    let s0 = list;
    rises_on(
        s0,
        4,
        !p.brightness.equals(zero()) || !p.contrast.equals(one()),
        Stage::BrightnessContrast { brightness: p.brightness, contrast: p.contrast },
    );
    let s1 = s0 + p.brightness_contrast_stage();
    rises_on(s1, 5, !p.color_balance.neutral(), Stage::ColorBalance { balance: p.color_balance });
    let s2 = s1 + p.color_balance_stage();
    rises_on(s2, 6, !p.photo_filter.neutral(), Stage::PhotoFilter { filter: p.photo_filter });
    let s3 = s2 + p.photo_filter_stage();
    rises_on(s3, 7, !p.channel_mixer.neutral(), Stage::ChannelMixer { mixer: p.channel_mixer });
    let s4 = s3 + p.channel_mixer_stage();
    assert(list + p.tone_stages() =~= s4);
}

proof fn chroma_stages_rise(p: AdjustParams, list: Seq<Stage>)
    requires
        rising(list, 8),
    ensures
        rising(list + p.chroma_stages(), 11),
{
    reveal(AdjustParams::chroma_stages);
    let s0 = list;
    rises_on(
        s0,
        8,
        !p.vibrance.equals(zero()),
        Stage::Vibrance { amount: p.vibrance, saturation: zero() },
    );
    let s1 = s0 + p.vibrance_stage();
    rises_on(s1, 9, !p.saturation.equals(one()), Stage::Saturation { amount: p.saturation });
    let s2 = s1 + p.saturation_stage();
    rises_on(s2, 10, p.black_white.enabled, Stage::BlackWhite { weights: p.black_white.weights });
    let s3 = s2 + p.black_white_stage();
    assert(list + p.chroma_stages() =~= s3);
}

proof fn quantize_stages_rise(p: AdjustParams, list: Seq<Stage>)
    requires
        rising(list, 11),
    ensures
        rising(list + p.quantize_stages(), 13),
{
    reveal(AdjustParams::quantize_stages);
    let s0 = list;
    rises_on(s0, 11, p.posterize is Some, Stage::Posterize { count: p.posterize->0 });
    let s1 = s0 + p.posterize_stage();
    rises_on(s1, 12, p.threshold is Some, Stage::Threshold { cut: p.threshold->0 });
    let s2 = s1 + p.threshold_stage();
    assert(list + p.quantize_stages() =~= s2);
}

proof fn filter_stages_rise(p: AdjustParams, radius: u32, list: Seq<Stage>)
    requires
        rising(list, 13),
    ensures
        rising(list + p.filter_stages(radius), 17),
{
    reveal(AdjustParams::filter_stages);
    let s0 = list;
    rises_on(s0, 13, !p.hue_degrees.equals(zero()), Stage::HueRotate { degrees: p.hue_degrees });
    let s1 = s0 + p.hue_rotate_stage();
    rises_on(s1, 14, p.invert, Stage::Invert);
    let s2 = s1 + p.invert_stage();
    rises_on(
        s2,
        15,
        zero().below(p.blur_sigma),
        Stage::Blur { sigma: p.blur_sigma, radius },
    );
    let s3 = s2 + p.blur_stage(radius);
    rises_on(s3, 16, zero().below(p.sharpen_amount), sharpen(p.sharpen_amount));
    let s4 = s3 + p.sharpen_stage();
    assert(list + p.filter_stages(radius) =~= s4);
}

/// The stages of a plan come in the fixed order, each at most once.
pub proof fn stages_keep_their_order(p: AdjustParams, radius: u32)
    ensures
        forall|i: int, j: int|
            0 <= i < j < p.stages(radius).len() ==> (#[trigger] p.stages(radius)[i]).place() < (
            #[trigger] p.stages(radius)[j]).place(),
{
    let s0 = Seq::<Stage>::empty();
    assert(rising(s0, 0)) by {
        reveal(rising);
    }
    remap_stages_rise(p, s0);
    let s1 = s0 + p.remap_stages();
    tone_stages_rise(p, s1);
    let s2 = s1 + p.tone_stages();
    chroma_stages_rise(p, s2);
    let s3 = s2 + p.chroma_stages();
    quantize_stages_rise(p, s3);
    let s4 = s3 + p.quantize_stages();
    filter_stages_rise(p, radius, s4);
    let s5 = s4 + p.filter_stages(radius);
    assert(p.stages(radius) =~= s5);
    reveal(rising);
}

/// A chain that changes nothing hands back the image, byte for byte, and asks
/// the device for nothing.
pub proof fn neutral_chain_is_the_identity(
    image: Seq<u8>,
    params: AdjustParams,
    ran: Seq<u8>,
    selection: Option<SelectionCoverage>,
    radius: u32,
)
    requires
        params.unchanged(),
    ensures
        params.stages(radius) == Seq::<Stage>::empty(),
        adjusted(image, params, ran, selection) == image,
{
    reveal(AdjustParams::remap_stages);
    reveal(AdjustParams::tone_stages);
    reveal(AdjustParams::chroma_stages);
    reveal(AdjustParams::quantize_stages);
    reveal(AdjustParams::filter_stages);
    assert(params.stages(radius) =~= Seq::<Stage>::empty());
}

/// A chain asks the device for something exactly when a stage runs: a curve
/// alone needs none.
pub proof fn a_curve_alone_needs_no_device(params: AdjustParams, radius: u32)
    ensures
        params.stages(radius).len() == 0 <==> !params.staged(),
{
    reveal(AdjustParams::remap_stages);
    reveal(AdjustParams::tone_stages);
    reveal(AdjustParams::chroma_stages);
    reveal(AdjustParams::quantize_stages);
    reveal(AdjustParams::filter_stages);
}

proof fn lemma_stage_of<F: Fn(Scalar) -> u32>(p: AdjustParams, radius: F, list: Seq<Stage>) -> (r:
    u32)
    requires
        p.plans(radius, list),
    ensures
        list == p.stages(r),
        zero().below(p.blur_sigma) ==> radius.ensures((p.blur_sigma,), r),
{
    if zero().below(p.blur_sigma) {
        choose|r: u32| #[trigger] radius.ensures((p.blur_sigma,), r) && list == p.stages(r)
    } else {
        0
    }
}

proof fn lemma_gated(a: Seq<Stage>, open: bool, stage: Stage, b: Seq<Stage>, s: Stage)
    ensures
        (a + gated(open, stage) + b).contains(s) <==> a.contains(s) || (open && s == stage)
            || b.contains(s),
{
    let mid = a + gated(open, stage);
    let all = mid + b;
    if all.contains(s) {
        let i = all.index_of(s);
        if i < a.len() {
            assert(a[i] == s);
        } else if i >= mid.len() {
            assert(b[i - mid.len()] == s);
        } else {
            assert(gated(open, stage)[i - a.len()] == s);
        }
    }
    if a.contains(s) {
        assert(all[a.index_of(s)] == s);
    }
    if open && s == stage {
        assert(gated(open, stage)[0] == s);
        assert(all[a.len() as int] == s);
    }
    if b.contains(s) {
        assert(all[mid.len() + b.index_of(s)] == s);
    }
}

proof fn lemma_remaps(p: AdjustParams, b: Seq<Stage>, s: Stage)
    ensures
        (p.remap_stages() + b).contains(s) <==> {
            ||| !p.exposure_ev.equals(zero()) && s == (Stage::Exposure { ev: p.exposure_ev })
            ||| (!p.temp.equals(zero()) || !p.tint.equals(zero())) && s == (Stage::WhiteBalance {
                temp: p.temp,
                tint: p.tint,
            })
            ||| !p.levels.neutral() && s == (Stage::Levels { levels: p.levels })
            ||| !p.levels_rgb.neutral() && s == (Stage::LevelsRgb { channels: p.levels_rgb })
            ||| b.contains(s)
        },
{
    reveal(AdjustParams::remap_stages);
    let e = Seq::<Stage>::empty();
    let b3 = p.levels_rgb_stage() + b;
    let b2 = p.levels_stage() + b3;
    let b1 = p.white_balance_stage() + b2;
    lemma_gated(e, !p.exposure_ev.equals(zero()), Stage::Exposure { ev: p.exposure_ev }, b1, s);
    lemma_gated(
        e,
        !p.temp.equals(zero()) || !p.tint.equals(zero()),
        Stage::WhiteBalance { temp: p.temp, tint: p.tint },
        b2,
        s,
    );
    lemma_gated(e, !p.levels.neutral(), Stage::Levels { levels: p.levels }, b3, s);
    lemma_gated(e, !p.levels_rgb.neutral(), Stage::LevelsRgb { channels: p.levels_rgb }, b, s);
    assert(p.remap_stages() + b =~= e + p.exposure_stage() + b1);
    assert(b1 =~= e + p.white_balance_stage() + b2);
    assert(b2 =~= e + p.levels_stage() + b3);
    assert(b3 =~= e + p.levels_rgb_stage() + b);
    assert(!e.contains(s));
}

proof fn lemma_tones(p: AdjustParams, b: Seq<Stage>, s: Stage)
    ensures
        (p.tone_stages() + b).contains(s) <==> {
            ||| (!p.brightness.equals(zero()) || !p.contrast.equals(one())) && s == (
            Stage::BrightnessContrast { brightness: p.brightness, contrast: p.contrast })
            ||| !p.color_balance.neutral() && s == (Stage::ColorBalance {
                balance: p.color_balance,
            })
            ||| !p.photo_filter.neutral() && s == (Stage::PhotoFilter { filter: p.photo_filter })
            ||| !p.channel_mixer.neutral() && s == (Stage::ChannelMixer { mixer: p.channel_mixer })
            ||| b.contains(s)
        },
{
    reveal(AdjustParams::tone_stages);
    let e = Seq::<Stage>::empty();
    let b3 = p.channel_mixer_stage() + b;
    let b2 = p.photo_filter_stage() + b3;
    let b1 = p.color_balance_stage() + b2;
    lemma_gated(
        e,
        !p.brightness.equals(zero()) || !p.contrast.equals(one()),
        Stage::BrightnessContrast { brightness: p.brightness, contrast: p.contrast },
        b1,
        s,
    );
    lemma_gated(
        e,
        !p.color_balance.neutral(),
        Stage::ColorBalance { balance: p.color_balance },
        b2,
        s,
    );
    lemma_gated(e, !p.photo_filter.neutral(), Stage::PhotoFilter { filter: p.photo_filter }, b3, s);
    lemma_gated(
        e,
        !p.channel_mixer.neutral(),
        Stage::ChannelMixer { mixer: p.channel_mixer },
        b,
        s,
    );
    assert(p.tone_stages() + b =~= e + p.brightness_contrast_stage() + b1);
    assert(b1 =~= e + p.color_balance_stage() + b2);
    assert(b2 =~= e + p.photo_filter_stage() + b3);
    assert(b3 =~= e + p.channel_mixer_stage() + b);
    assert(!e.contains(s));
}

proof fn lemma_chromas(p: AdjustParams, b: Seq<Stage>, s: Stage)
    ensures
        (p.chroma_stages() + b).contains(s) <==> {
            ||| !p.vibrance.equals(zero()) && s == (Stage::Vibrance {
                amount: p.vibrance,
                saturation: zero(),
            })
            ||| !p.saturation.equals(one()) && s == (Stage::Saturation { amount: p.saturation })
            ||| p.black_white.enabled && s == (Stage::BlackWhite {
                weights: p.black_white.weights,
            })
            ||| b.contains(s)
        },
{
    reveal(AdjustParams::chroma_stages);
    let e = Seq::<Stage>::empty();
    let b2 = p.black_white_stage() + b;
    let b1 = p.saturation_stage() + b2;
    lemma_gated(
        e,
        !p.vibrance.equals(zero()),
        Stage::Vibrance { amount: p.vibrance, saturation: zero() },
        b1,
        s,
    );
    lemma_gated(e, !p.saturation.equals(one()), Stage::Saturation { amount: p.saturation }, b2, s);
    lemma_gated(
        e,
        p.black_white.enabled,
        Stage::BlackWhite { weights: p.black_white.weights },
        b,
        s,
    );
    assert(p.chroma_stages() + b =~= e + p.vibrance_stage() + b1);
    assert(b1 =~= e + p.saturation_stage() + b2);
    assert(b2 =~= e + p.black_white_stage() + b);
    assert(!e.contains(s));
}

proof fn lemma_quantizes(p: AdjustParams, b: Seq<Stage>, s: Stage)
    ensures
        (p.quantize_stages() + b).contains(s) <==> {
            ||| p.posterize is Some && s == (Stage::Posterize { count: p.posterize->0 })
            ||| p.threshold is Some && s == (Stage::Threshold { cut: p.threshold->0 })
            ||| b.contains(s)
        },
{
    reveal(AdjustParams::quantize_stages);
    let e = Seq::<Stage>::empty();
    let b1 = p.threshold_stage() + b;
    lemma_gated(e, p.posterize is Some, Stage::Posterize { count: p.posterize->0 }, b1, s);
    lemma_gated(e, p.threshold is Some, Stage::Threshold { cut: p.threshold->0 }, b, s);
    assert(p.quantize_stages() + b =~= e + p.posterize_stage() + b1);
    assert(b1 =~= e + p.threshold_stage() + b);
    assert(!e.contains(s));
}

proof fn lemma_filters(p: AdjustParams, radius: u32, s: Stage)
    ensures
        p.filter_stages(radius).contains(s) <==> {
            ||| !p.hue_degrees.equals(zero()) && s == (Stage::HueRotate { degrees: p.hue_degrees })
            ||| p.invert && s == Stage::Invert
            ||| zero().below(p.blur_sigma) && s == (Stage::Blur { sigma: p.blur_sigma, radius })
            ||| zero().below(p.sharpen_amount) && s == sharpen(p.sharpen_amount)
        },
{
    reveal(AdjustParams::filter_stages);
    let e = Seq::<Stage>::empty();
    let b3 = p.sharpen_stage();
    let b2 = p.blur_stage(radius) + b3;
    let b1 = p.invert_stage() + b2;
    lemma_gated(
        e,
        !p.hue_degrees.equals(zero()),
        Stage::HueRotate { degrees: p.hue_degrees },
        b1,
        s,
    );
    lemma_gated(e, p.invert, Stage::Invert, b2, s);
    lemma_gated(
        e,
        zero().below(p.blur_sigma),
        Stage::Blur { sigma: p.blur_sigma, radius },
        b3,
        s,
    );
    lemma_gated(e, zero().below(p.sharpen_amount), sharpen(p.sharpen_amount), e, s);
    assert(p.filter_stages(radius) =~= e + p.hue_rotate_stage() + b1);
    assert(b1 =~= e + p.invert_stage() + b2);
    assert(b2 =~= e + p.blur_stage(radius) + b3);
    assert(b3 =~= e + p.sharpen_stage() + e);
    assert(!e.contains(s));
}

/// Each slider moves its own stage and no other: a plan holds a stage exactly
/// where the parameters of its name are set, and the stage carries those very
/// parameters, each under its own name. Sharpening works against a blur of 1.5
/// pixels, five pixels out, with no threshold; a blur goes out to its radius.
pub proof fn every_stage_carries_its_own_parameters<F: Fn(Scalar) -> u32>(
    p: AdjustParams,
    radius: F,
    list: Seq<Stage>,
    s: Stage,
)
    requires
        p.plans(radius, list),
    ensures
        list.contains(s) ==> match s {
            Stage::Exposure { ev } => ev == p.exposure_ev,
            Stage::WhiteBalance { temp, tint } => temp == p.temp && tint == p.tint,
            Stage::Levels { levels } => levels == p.levels,
            Stage::LevelsRgb { channels } => channels == p.levels_rgb,
            Stage::BrightnessContrast { brightness, contrast } => brightness == p.brightness
                && contrast == p.contrast,
            Stage::ColorBalance { balance } => balance == p.color_balance,
            Stage::PhotoFilter { filter } => filter == p.photo_filter,
            Stage::ChannelMixer { mixer } => mixer == p.channel_mixer,
            Stage::Vibrance { amount, saturation } => amount == p.vibrance && saturation.bits == 0,
            Stage::Saturation { amount } => amount == p.saturation,
            Stage::BlackWhite { weights } => p.black_white.enabled && weights
                == p.black_white.weights,
            Stage::Posterize { count } => p.posterize == Some(count),
            Stage::Threshold { cut } => p.threshold == Some(cut),
            Stage::HueRotate { degrees } => degrees == p.hue_degrees,
            Stage::Invert => p.invert,
            Stage::Blur { sigma, radius: r } => sigma == p.blur_sigma && radius.ensures((sigma,), r),
            Stage::Sharpen { amount, threshold, sigma, radius: r } => amount == p.sharpen_amount
                && threshold.bits == 0 && sigma.bits == 0x3fc0_0000 && r == 5,
        },
        !(p.exposure_ev.equals(zero())) <==> list.contains(Stage::Exposure { ev: p.exposure_ev }),
        !(p.temp.equals(zero()) && p.tint.equals(zero())) <==> list.contains(
            Stage::WhiteBalance { temp: p.temp, tint: p.tint },
        ),
        !p.levels.neutral() <==> list.contains(Stage::Levels { levels: p.levels }),
        !p.levels_rgb.neutral() <==> list.contains(Stage::LevelsRgb { channels: p.levels_rgb }),
        !(p.brightness.equals(zero()) && p.contrast.equals(one())) <==> list.contains(
            Stage::BrightnessContrast { brightness: p.brightness, contrast: p.contrast },
        ),
        !p.color_balance.neutral() <==> list.contains(
            Stage::ColorBalance { balance: p.color_balance },
        ),
        !(p.photo_filter.density.equals(zero())) <==> list.contains(
            Stage::PhotoFilter { filter: p.photo_filter },
        ),
        !p.channel_mixer.neutral() <==> list.contains(
            Stage::ChannelMixer { mixer: p.channel_mixer },
        ),
        !(p.vibrance.equals(zero())) <==> list.contains(
            Stage::Vibrance { amount: p.vibrance, saturation: Scalar { bits: 0 } },
        ),
        !(p.saturation.equals(one())) <==> list.contains(
            Stage::Saturation { amount: p.saturation },
        ),
        p.black_white.enabled <==> list.contains(
            Stage::BlackWhite { weights: p.black_white.weights },
        ),
        p.posterize matches Some(v) ==> list.contains(Stage::Posterize { count: v }),
        p.threshold matches Some(v) ==> list.contains(Stage::Threshold { cut: v }),
        !(p.hue_degrees.equals(zero())) <==> list.contains(
            Stage::HueRotate { degrees: p.hue_degrees },
        ),
        p.invert <==> list.contains(Stage::Invert),
        zero().below(p.blur_sigma) ==> exists|r: u32|
            #[trigger] list.contains(Stage::Blur { sigma: p.blur_sigma, radius: r }),
        zero().below(p.sharpen_amount) <==> list.contains(
            Stage::Sharpen {
                amount: p.sharpen_amount,
                threshold: Scalar { bits: 0 },
                sigma: Scalar { bits: 0x3fc0_0000 },
                radius: 5,
            },
        ),
{
    let r = lemma_stage_of(p, radius, list);
    let f = p.filter_stages(r);
    let q = p.quantize_stages() + f;
    let c = p.chroma_stages() + q;
    let t = p.tone_stages() + c;
    assert(list =~= p.remap_stages() + t);
    assert forall|s: Stage| #[trigger] list.contains(s) <==> {
        ||| !p.exposure_ev.equals(zero()) && s == (Stage::Exposure { ev: p.exposure_ev })
        ||| (!p.temp.equals(zero()) || !p.tint.equals(zero())) && s == (Stage::WhiteBalance {
            temp: p.temp,
            tint: p.tint,
        })
        ||| !p.levels.neutral() && s == (Stage::Levels { levels: p.levels })
        ||| !p.levels_rgb.neutral() && s == (Stage::LevelsRgb { channels: p.levels_rgb })
        ||| (!p.brightness.equals(zero()) || !p.contrast.equals(one())) && s == (
        Stage::BrightnessContrast { brightness: p.brightness, contrast: p.contrast })
        ||| !p.color_balance.neutral() && s == (Stage::ColorBalance { balance: p.color_balance })
        ||| !p.photo_filter.neutral() && s == (Stage::PhotoFilter { filter: p.photo_filter })
        ||| !p.channel_mixer.neutral() && s == (Stage::ChannelMixer { mixer: p.channel_mixer })
        ||| !p.vibrance.equals(zero()) && s == (Stage::Vibrance {
            amount: p.vibrance,
            saturation: zero(),
        })
        ||| !p.saturation.equals(one()) && s == (Stage::Saturation { amount: p.saturation })
        ||| p.black_white.enabled && s == (Stage::BlackWhite { weights: p.black_white.weights })
        ||| p.posterize is Some && s == (Stage::Posterize { count: p.posterize->0 })
        ||| p.threshold is Some && s == (Stage::Threshold { cut: p.threshold->0 })
        ||| !p.hue_degrees.equals(zero()) && s == (Stage::HueRotate { degrees: p.hue_degrees })
        ||| p.invert && s == Stage::Invert
        ||| zero().below(p.blur_sigma) && s == (Stage::Blur { sigma: p.blur_sigma, radius: r })
        ||| zero().below(p.sharpen_amount) && s == sharpen(p.sharpen_amount)
    } by {
        lemma_remaps(p, t, s);
        lemma_tones(p, c, s);
        lemma_chromas(p, q, s);
        lemma_quantizes(p, f, s);
        lemma_filters(p, r, s);
    }
    assert(zero().below(p.blur_sigma) ==> list.contains(
        Stage::Blur { sigma: p.blur_sigma, radius: r },
    ));
}

/// The stages of a plan run in the order that makes the result: exposure, white
/// balance and levels set the working range; tone, balance, filter and mixer grade
/// it; vibrance, saturation and black and white settle the chroma; posterizing and
/// thresholding collapse it; hue, negative, blur and sharpening come last.
pub proof fn stages_run_from_remap_to_filter<F: Fn(Scalar) -> u32>(
    p: AdjustParams,
    radius: F,
    list: Seq<Stage>,
    i: int,
    j: int,
)
    requires
        p.plans(radius, list),
        0 <= i < j < list.len(),
    ensures
        ({
            let turn = |s: Stage|
                match s {
                    Stage::Exposure { .. } => 0int,
                    Stage::WhiteBalance { .. } => 1,
                    Stage::Levels { .. } => 2,
                    Stage::LevelsRgb { .. } => 3,
                    Stage::BrightnessContrast { .. } => 4,
                    Stage::ColorBalance { .. } => 5,
                    Stage::PhotoFilter { .. } => 6,
                    Stage::ChannelMixer { .. } => 7,
                    Stage::Vibrance { .. } => 8,
                    Stage::Saturation { .. } => 9,
                    Stage::BlackWhite { .. } => 10,
                    Stage::Posterize { .. } => 11,
                    Stage::Threshold { .. } => 12,
                    Stage::HueRotate { .. } => 13,
                    Stage::Invert => 14,
                    Stage::Blur { .. } => 15,
                    Stage::Sharpen { .. } => 16,
                };
            turn(list[i]) < turn(list[j])
        }),
{
    let r = lemma_stage_of(p, radius, list);
    stages_keep_their_order(p, r);
    assert(list[i].place() < list[j].place());
}

/// Levels are neutral exactly where every number of them equals the one that a panel
/// starts from: none is left out.
pub proof fn neutral_levels_are_the_panels_own(a: LevelsParams, b: LevelsParams)
    requires
        b.preset(),
    ensures
        a.neutral() <==> {
            &&& a.in_black.equals(b.in_black)
            &&& a.in_white.equals(b.in_white)
            &&& a.gamma.equals(b.gamma)
            &&& a.out_black.equals(b.out_black)
            &&& a.out_white.equals(b.out_white)
        },
        b.neutral(),
{
}

/// Per-channel levels are neutral exactly where every number of every channel equals
/// the one that a panel starts from.
pub proof fn neutral_channel_levels_are_the_panels_own(a: LevelsRgbParams, b: LevelsRgbParams)
    requires
        b.preset(),
    ensures
        a.neutral() <==> {
            &&& a.r@[0].equals(b.r@[0]) && a.r@[1].equals(b.r@[1]) && a.r@[2].equals(b.r@[2])
            &&& a.g@[0].equals(b.g@[0]) && a.g@[1].equals(b.g@[1]) && a.g@[2].equals(b.g@[2])
            &&& a.b@[0].equals(b.b@[0]) && a.b@[1].equals(b.b@[1]) && a.b@[2].equals(b.b@[2])
        },
        b.neutral(),
{
    assert(b.r@[0] == zero() && b.r@[1] == one() && b.r@[2] == one());
    assert(b.g@[0] == zero() && b.g@[1] == one() && b.g@[2] == one());
    assert(b.b@[0] == zero() && b.b@[1] == one() && b.b@[2] == one());
}

/// A colour balance is neutral exactly where every offset of every range equals the
/// one that a panel starts from.
pub proof fn a_neutral_balance_is_the_panels_own(a: ColorBalanceParams, b: ColorBalanceParams)
    requires
        b.preset(),
    ensures
        a.neutral() <==> {
            &&& a.shadows@[0].equals(b.shadows@[0]) && a.shadows@[1].equals(b.shadows@[1])
                && a.shadows@[2].equals(b.shadows@[2])
            &&& a.midtones@[0].equals(b.midtones@[0]) && a.midtones@[1].equals(b.midtones@[1])
                && a.midtones@[2].equals(b.midtones@[2])
            &&& a.highlights@[0].equals(b.highlights@[0]) && a.highlights@[1].equals(
                b.highlights@[1],
            ) && a.highlights@[2].equals(b.highlights@[2])
        },
        b.neutral(),
{
    assert(b.shadows@[0] == zero() && b.shadows@[1] == zero() && b.shadows@[2] == zero());
    assert(b.midtones@[0] == zero() && b.midtones@[1] == zero() && b.midtones@[2] == zero());
    assert(b.highlights@[0] == zero() && b.highlights@[1] == zero() && b.highlights@[2] == zero());
}

/// A channel mixer is neutral exactly where every number of every row equals the one
/// that a panel starts from.
pub proof fn a_neutral_mixer_is_the_panels_own(a: ChannelMixerParams, b: ChannelMixerParams)
    requires
        b.preset(),
    ensures
        a.neutral() <==> {
            &&& a.r@[0].equals(b.r@[0]) && a.r@[1].equals(b.r@[1]) && a.r@[2].equals(b.r@[2])
                && a.r@[3].equals(b.r@[3])
            &&& a.g@[0].equals(b.g@[0]) && a.g@[1].equals(b.g@[1]) && a.g@[2].equals(b.g@[2])
                && a.g@[3].equals(b.g@[3])
            &&& a.b@[0].equals(b.b@[0]) && a.b@[1].equals(b.b@[1]) && a.b@[2].equals(b.b@[2])
                && a.b@[3].equals(b.b@[3])
        },
        b.neutral(),
{
    assert(b.r@[0] == one() && b.r@[1] == zero() && b.r@[2] == zero() && b.r@[3] == zero());
    assert(b.g@[0] == zero() && b.g@[1] == one() && b.g@[2] == zero() && b.g@[3] == zero());
    assert(b.b@[0] == zero() && b.b@[1] == zero() && b.b@[2] == one() && b.b@[3] == zero());
}

/// The block is read in its documented order: each group of parameters is its own
/// run of the block, the numbers of a run in their own order, and a switch is on
/// where its number is not zero.
pub proof fn a_block_is_read_in_its_order(
    before: AdjustParams,
    ext: Seq<Scalar>,
    after: AdjustParams,
)
    requires
        ext.len() == 47,
        extends(before, ext, after),
    ensures
        ext.take(10) == seq![after.vibrance] + after.color_balance.shadows@
            + after.color_balance.midtones@ + after.color_balance.highlights@,
        ext.subrange(11, 17) == after.black_white.weights@,
        ext.subrange(22, 25) == after.photo_filter.color@,
        ext.subrange(26, 38) == after.channel_mixer.r@ + after.channel_mixer.g@
            + after.channel_mixer.b@,
        ext.skip(38) == after.levels_rgb.r@ + after.levels_rgb.g@ + after.levels_rgb.b@,
        ext[21] == after.photo_filter.density,
        after.black_white.enabled <==> !ext[10].equals(zero()),
        after.posterize matches Some(v) ==> v == ext[18],
        after.posterize is Some <==> !ext[17].equals(zero()),
        after.threshold matches Some(v) ==> v == ext[20],
        after.threshold is Some <==> !ext[19].equals(zero()),
        after.photo_filter.preserve_luminosity <==> !ext[25].equals(zero()),
        after.exposure_ev == before.exposure_ev && after.brightness == before.brightness
            && after.contrast == before.contrast && after.saturation == before.saturation,
        after.temp == before.temp && after.tint == before.tint && after.levels == before.levels
            && after.curve_lut == before.curve_lut,
        after.blur_sigma == before.blur_sigma && after.sharpen_amount == before.sharpen_amount
            && after.hue_degrees == before.hue_degrees && after.invert == before.invert,
{
    assert(ext.take(10) =~= seq![after.vibrance] + after.color_balance.shadows@
        + after.color_balance.midtones@ + after.color_balance.highlights@);
    assert(ext.subrange(11, 17) =~= after.black_white.weights@);
    assert(ext.subrange(22, 25) =~= after.photo_filter.color@);
    assert(ext.subrange(26, 38) =~= after.channel_mixer.r@ + after.channel_mixer.g@
        + after.channel_mixer.b@);
    assert(ext.skip(38) =~= after.levels_rgb.r@ + after.levels_rgb.g@ + after.levels_rgb.b@);
}

/// The curve comes after the device and stays in the selection: what the device
/// made of the image, or the image itself where no stage runs, takes its table
/// entries where the selection is full and is left alone where it is empty, and
/// alpha is never remapped.
pub proof fn a_curve_remaps_what_the_stages_left(
    image: Seq<u8>,
    params: AdjustParams,
    ran: Seq<u8>,
    selection: Option<SelectionCoverage>,
    p: int,
    c: int,
)
    requires
        params.curve_lut is Some,
        ran.len() == image.len(),
        image.len() % 4 == 0,
        0 <= p < image.len() / 4,
        0 <= c < 4,
        selection matches Some(s) ==> s.cells().len() == image.len() / 4 && s.columns() * s.rows()
            == image.len() / 4,
    ensures
        ({
            let lut = params.curve_lut->0@;
            let base = if params.staged() {
                ran
            } else {
                image
            };
            let out = adjusted(image, params, ran, selection);
            let cover: u8 = match selection {
                Some(s) => s.cells()[p],
                None => 255,
            };
            &&& out.len() == image.len()
            &&& c == 3 ==> out[4 * p + c] == base[4 * p + c]
            &&& c < 3 && cover == 255 ==> out[4 * p + c] == lut[base[4 * p + c] as int]
            &&& c < 3 && cover == 0 ==> out[4 * p + c] == base[4 * p + c]
        }),
{
    let base = if params.staged() {
        ran
    } else {
        image
    };
    let lut = params.curve_lut->0@;
    assert((4 * p + c) / 4 == p && (4 * p + c) % 4 == c);
    match selection {
        Some(s) => {
            assert(s.columns() * s.rows() * 4 == base.len());
            crate::ingest::masked_curve_follows_the_coverage(base, lut, s.cells(), 4 * p + c);
        },
        None => {},
    }
}

} // verus!
