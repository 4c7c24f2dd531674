//! Brush strokes: the tools, the frozen parameters, and the session that turns
//! samples into composites over the untouched base.
//!
//! The dab accumulator, the spacing walk and the blend run with the device.
//! The session decides what they are asked for, where a cloning stroke reads
//! from, and which bytes a composite may write: only those under non-zero
//! coverage, so that a brush cannot paint outside the selection.
use crate::blend::BlendMode;
use crate::bridge::rgba8_to_f16;
use crate::coverage::{Region, SelectionCoverage};
use crate::errors::{unsupported, IngestError};
use crate::heal::{correction_field, field_to_f16};
use crate::ingest::{canvas_bytes, mis_sized_text, DecodedImage};
use crate::scalar::{Scalar, ONE, ZERO};
use crate::strings::same_text;
use std::sync::Arc;
use vstd::prelude::*;

verus! {

/// Which painting tool a stroke is.
#[derive(Debug, Clone, Copy, PartialEq, Eq, Structural)]
pub enum StrokeTool {
    /// Soft round tip, antialiased rim.
    Brush,
    /// Hard round tip without antialiasing, at a fixed flow of one.
    Pencil,
    /// Takes alpha away instead of laying colour down.
    Eraser,
    /// Copies pixels from one place of the image to another.
    Clone,
    /// A clone whose source is tone-matched to the destination.
    Heal,
}

impl StrokeTool {
    /// The tool's wire name.
    pub open spec fn wire(self) -> Seq<char> {
        match self {
            StrokeTool::Brush => "brush"@,
            StrokeTool::Pencil => "pencil"@,
            StrokeTool::Eraser => "eraser"@,
            StrokeTool::Clone => "clone"@,
            StrokeTool::Heal => "heal"@,
        }
    }

    /// Whether the tool paints from a sampled window rather than a colour.
    pub open spec fn sampling(self) -> bool {
        self is Clone || self is Heal
    }

    /// Decode the wire name.
    pub fn from_wire(s: &str) -> (tool: Option<StrokeTool>)
        ensures
            tool matches Some(t) ==> t.wire() == s@,
            tool is None ==> forall|t: StrokeTool| #[trigger] t.wire() != s@,
            forall|t: StrokeTool| #[trigger] t.wire() == s@ ==> tool == Some(t),
    {
        let tool: Option<StrokeTool> = if same_text(s, "brush") {
            Some(StrokeTool::Brush)
        } else if same_text(s, "pencil") {
            Some(StrokeTool::Pencil)
        } else if same_text(s, "eraser") {
            Some(StrokeTool::Eraser)
        } else if same_text(s, "clone") {
            Some(StrokeTool::Clone)
        } else if same_text(s, "heal") {
            Some(StrokeTool::Heal)
        } else {
            None
        };
        proof {
            tool_names_are_distinct();
            if let Some(t) = tool {
                assert(t.wire() == s@);
            }
        }
        tool
    }

    pub fn as_wire(self) -> (name: &'static str)
        ensures
            name@ == self.wire(),
    {
        match self {
            StrokeTool::Brush => "brush",
            StrokeTool::Pencil => "pencil",
            StrokeTool::Eraser => "eraser",
            StrokeTool::Clone => "clone",
            StrokeTool::Heal => "heal",
        }
    }

    /// Does this tool paint from a sampled window rather than a colour?
    pub fn samples_image(self) -> (yes: bool)
        ensures
            yes <==> self.sampling(),
    {
        matches!(self, StrokeTool::Clone | StrokeTool::Heal)
    }

    /// Does it tone-match the sample to its destination?
    pub fn tone_matches(self) -> (yes: bool)
        ensures
            yes <==> self is Heal,
    {
        matches!(self, StrokeTool::Heal)
    }

    /// The pencil is aliased; every other tool antialiases its rim.
    pub fn antialias(self) -> (yes: bool)
        ensures
            yes <==> !(self is Pencil),
    {
        !matches!(self, StrokeTool::Pencil)
    }
}

/// No two tools share a wire name, so that a name decodes to the tool that was
/// encoded.
pub proof fn tool_names_are_distinct()
    ensures
        forall|a: StrokeTool, b: StrokeTool| #[trigger] a.wire() == #[trigger] b.wire() ==> a == b,
{
    reveal_strlit("brush");
    reveal_strlit("pencil");
    reveal_strlit("eraser");
    reveal_strlit("clone");
    reveal_strlit("heal");
    assert forall|a: StrokeTool, b: StrokeTool| #[trigger] a.wire() == #[trigger]
        b.wire() implies a == b by {
        assert(a.wire()[0] == b.wire()[0]);
    }
}

/// Which property the pen's pressure drives.
#[derive(Debug, Clone, Copy, PartialEq, Eq, Structural)]
pub enum PressureTarget {
    Off,
    Size,
    Opacity,
    Both,
}

impl PressureTarget {
    /// Whether a pressure drives the size of a dab.
    pub open spec fn drives_size(self) -> bool {
        self is Size || self is Both
    }

    /// Whether a pressure drives the flow of a dab.
    pub open spec fn drives_flow(self) -> bool {
        self is Opacity || self is Both
    }

    /// How much of a dab's size a pressure leaves; `share` is what a pressure
    /// leaves of what it drives.
    pub fn size_scale<F: Fn(Scalar) -> Scalar>(self, pressure: Scalar, share: &F) -> (scale: Scalar)
        requires
            share.requires((pressure,)),
        ensures
            scales(self.drives_size(), pressure, *share, scale),
    {
        match self {
            PressureTarget::Size | PressureTarget::Both => share(pressure),
            PressureTarget::Off | PressureTarget::Opacity => Scalar { bits: ONE },
        }
    }

    /// How much of a dab's flow a pressure leaves; `share` is what a pressure
    /// leaves of what it drives.
    pub fn flow_scale<F: Fn(Scalar) -> Scalar>(self, pressure: Scalar, share: &F) -> (scale: Scalar)
        requires
            share.requires((pressure,)),
        ensures
            scales(self.drives_flow(), pressure, *share, scale),
    {
        match self {
            PressureTarget::Opacity | PressureTarget::Both => share(pressure),
            PressureTarget::Off | PressureTarget::Size => Scalar { bits: ONE },
        }
    }
}

/// Whether `scale` is what a pressure leaves: its share of what it drives, and
/// all of what it does not.
pub open spec fn scales<F: Fn(Scalar) -> Scalar>(
    driven: bool,
    pressure: Scalar,
    share: F,
    scale: Scalar,
) -> bool {
    if driven {
        share.ensures((pressure,), scale)
    } else {
        scale == crate::scalar::one()
    }
}

/// Half a pixel: the smallest tip diameter.
pub const MIN_SIZE_PX: u32 = 0x3f00_0000;

/// 2048 pixels: the largest tip diameter.
pub const MAX_SIZE_PX: u32 = 0x4500_0000;

/// 0.01: the densest spacing, as a fraction of the diameter.
pub const MIN_SPACING_FRACTION: u32 = 0x3c23_d70a;

/// 4: the sparsest spacing.
pub const MAX_SPACING_FRACTION: u32 = 0x4080_0000;

/// Everything about a stroke that is fixed for its whole duration.
#[derive(Debug, Clone, Copy)]
pub struct StrokeParams {
    pub tool: StrokeTool,
    /// Tip diameter in image pixels.
    pub size: Scalar,
    /// Fully opaque fraction of the radius.
    pub hardness: Scalar,
    /// The ceiling the whole stroke composites at.
    pub opacity: Scalar,
    /// How much each dab deposits.
    pub flow: Scalar,
    /// Dab spacing as a fraction of the diameter.
    pub spacing: Scalar,
    pub blend: BlendMode,
    /// Straight RGBA.
    pub color: [Scalar; 4],
    pub pressure: PressureTarget,
}

/// How a tool whose paint is generated lays it down.
#[derive(Debug, Clone, Copy)]
pub enum PaintMode {
    Erase,
    Paint { blend: BlendMode, color: [Scalar; 4] },
}

/// A number clamped to `[0, 1]`.
pub open spec fn unit_clamped(s: Scalar) -> Scalar {
    s.clamped(crate::scalar::zero(), crate::scalar::one())
}

fn clamp_unit(s: Scalar) -> (c: Scalar)
    ensures
        c == unit_clamped(s),
{
    s.clamp(Scalar { bits: ZERO }, Scalar { bits: ONE })
}

/// Whether `after` is `before` clamped to the ranges the engine promises.
pub open spec fn sanitizes(before: StrokeParams, after: StrokeParams) -> bool {
    &&& after.tool == before.tool
    &&& after.blend == before.blend
    &&& after.pressure == before.pressure
    &&& after.size == before.size.clamped(
        Scalar { bits: MIN_SIZE_PX },
        Scalar { bits: MAX_SIZE_PX },
    )
    &&& after.hardness == unit_clamped(before.hardness)
    &&& after.opacity == unit_clamped(before.opacity)
    &&& after.flow == (if before.tool is Pencil {
        crate::scalar::one()
    } else {
        unit_clamped(before.flow)
    })
    &&& after.spacing == before.spacing.clamped(
        Scalar { bits: MIN_SPACING_FRACTION },
        Scalar { bits: MAX_SPACING_FRACTION },
    )
    &&& forall|i: int| 0 <= i < 4 ==> #[trigger] after.color@[i] == unit_clamped(before.color@[i])
}

impl StrokeParams {
    /// The defaults a panel starts from: a 24 px half-hard round brush at full
    /// opacity and flow, quarter-diameter spacing, normal blend, opaque black,
    /// pressure driving size and opacity.
    pub fn defaults(tool: StrokeTool) -> (params: StrokeParams)
        ensures
            params.tool == tool,
            params.size == (Scalar { bits: 0x41c0_0000 }),
            params.hardness == (Scalar { bits: 0x3f00_0000 }),
            params.opacity == crate::scalar::one(),
            params.flow == crate::scalar::one(),
            params.spacing == (Scalar { bits: 0x3e80_0000 }),
            params.blend is Normal,
            params.color@ == seq![
                crate::scalar::zero(),
                crate::scalar::zero(),
                crate::scalar::zero(),
                crate::scalar::one(),
            ],
            params.pressure is Both,
    {
        let (z, u): (Scalar, Scalar) = (Scalar { bits: ZERO }, Scalar { bits: ONE });
        StrokeParams {
            tool,
            size: Scalar { bits: 0x41c0_0000 },
            hardness: Scalar { bits: 0x3f00_0000 },
            opacity: u,
            flow: u,
            spacing: Scalar { bits: 0x3e80_0000 },
            blend: BlendMode::Normal,
            color: [z, z, z, u],
            pressure: PressureTarget::Both,
        }
    }

    /// Clamp to the ranges the engine promises. The pencil always deposits
    /// fully: a partial flow would build up the soft edge its aliased tip
    /// exists to avoid.
    pub fn sanitized(self) -> (params: StrokeParams)
        ensures
            sanitizes(self, params),
    {
        StrokeParams {
            tool: self.tool,
            size: self.size.clamp(Scalar { bits: MIN_SIZE_PX }, Scalar { bits: MAX_SIZE_PX }),
            hardness: clamp_unit(self.hardness),
            opacity: clamp_unit(self.opacity),
            flow: if matches!(self.tool, StrokeTool::Pencil) {
                Scalar { bits: ONE }
            } else {
                clamp_unit(self.flow)
            },
            spacing: self.spacing.clamp(
                Scalar { bits: MIN_SPACING_FRACTION },
                Scalar { bits: MAX_SPACING_FRACTION },
            ),
            blend: self.blend,
            color: [
                clamp_unit(self.color[0]),
                clamp_unit(self.color[1]),
                clamp_unit(self.color[2]),
                clamp_unit(self.color[3]),
            ],
            pressure: self.pressure,
        }
    }

    /// The paint mode of the tools whose paint is generated; `None` for the
    /// sampling tools, whose paint is a window of the image.
    pub fn solid_paint_mode(&self) -> (mode: Option<PaintMode>)
        ensures
            mode is None <==> self.tool.sampling(),
            mode matches Some(m) ==> (m is Erase <==> self.tool is Eraser),
            mode matches Some(PaintMode::Paint { blend, color }) ==> blend == self.blend && color
                == self.color,
    {
        match self.tool {
            StrokeTool::Eraser => Some(PaintMode::Erase),
            StrokeTool::Brush | StrokeTool::Pencil => Some(
                PaintMode::Paint { blend: self.blend, color: self.color },
            ),
            StrokeTool::Clone | StrokeTool::Heal => None,
        }
    }
}

/// Sanitized parameters are sane: sanitizing them again changes nothing.
pub proof fn sanitizing_is_idempotent(raw: StrokeParams, once: StrokeParams, twice: StrokeParams)
    requires
        sanitizes(raw, once),
        sanitizes(once, twice),
    ensures
        twice.size == once.size,
        twice.hardness == once.hardness,
        twice.opacity == once.opacity,
        twice.flow == once.flow,
        twice.spacing == once.spacing,
        twice.color@ == once.color@,
{
    assert forall|i: int| 0 <= i < 4 implies twice.color@[i] == once.color@[i] by {}
    assert(twice.color@ =~= once.color@);
}

/// Where a cloning stroke reads its pixels from.
#[derive(Debug, Clone, Copy, PartialEq, Eq, Structural)]
pub struct CloneSource {
    /// The anchor the user set, in image pixels.
    pub x: Scalar,
    pub y: Scalar,
    /// Whether the source keeps its offset from the cursor across strokes.
    pub aligned: bool,
}

/// A pointer sample.
#[derive(Debug, Clone, Copy, PartialEq, Eq, Structural)]
pub struct StrokeSample {
    pub x: Scalar,
    pub y: Scalar,
    pub pressure: Scalar,
}

/// What a sample adds to a stroke.
#[derive(Debug, Clone, Copy, PartialEq, Eq, Structural)]
pub enum SampleAction {
    /// The sample is not a place on the plane.
    Ignore,
    /// The first sample: one dab where the pointer went down.
    Dot { at: StrokeSample },
    /// Dabs along the segment, spaced by the walk.
    Segment { from: StrokeSample, to: StrokeSample },
}

/// What one composite lays down.
#[derive(Debug)]
pub enum StrokePaint {
    Erase,
    Paint { blend: BlendMode, color: [Scalar; 4] },
    /// A window of the base, read at the clone offset; a healing stroke adds a
    /// correction to it.
    Sample { blend: BlendMode, source: Vec<u8>, heal: bool },
}

/// One composite of a dirty region.
#[derive(Debug)]
pub struct StrokeComposite {
    /// The dirty region, clipped to the canvas.
    pub region: Region,
    /// The base pixels of the region, as a working window.
    pub base: Vec<u8>,
    pub paint: StrokePaint,
}

/// The window a healing correction is solved on.
#[derive(Debug)]
pub struct HealWindow {
    /// The region and a margin around it, clipped to the canvas.
    pub frame: Region,
    pub dest: Vec<u8>,
    pub source: Vec<u8>,
}

/// One stroke in flight.
#[derive(Debug)]
pub struct StrokeSession {
    handle: u32,
    width: u32,
    height: u32,
    /// The untouched pixels: every composite derives from these.
    base: Arc<Vec<u8>>,
    /// The live painted pixels.
    working: Vec<u8>,
    params: StrokeParams,
    /// The selection, frozen when the stroke began.
    selection: Option<Arc<SelectionCoverage>>,
    last: Option<StrokeSample>,
    clone_source: Option<CloneSource>,
    /// Source minus cursor, in whole pixels; fixed at the first sample.
    clone_offset: Option<(i64, i64)>,
}

/// Pixel `p` of a region of a canvas with rows of `w` pixels, shifted by
/// `(dx, dy)`; -1 off the canvas.
pub open spec fn shifted_map(w: int, h: int, region: Region, dx: int, dy: int) -> spec_fn(
    int,
) -> int {
    |p: int|
        {
            let x = region.x + p % (region.w as int) + dx;
            let y = region.y + p / (region.w as int) + dy;
            if 0 <= x < w && 0 <= y < h {
                y * w + x
            } else {
                -1
            }
        }
}

/// The bytes of a region shifted by `(dx, dy)`; off the canvas there is
/// transparent black, never a smeared edge.
pub open spec fn shifted_window(
    base: Seq<u8>,
    w: int,
    h: int,
    region: Region,
    dx: int,
    dy: int,
) -> Seq<u8> {
    crate::grid::gathered(
        base,
        4,
        (region.w * region.h) as nat,
        shifted_map(w, h, region, dx, dy),
    )
}

/// Whether a region lies on a canvas.
pub open spec fn inside(region: Region, w: u32, h: u32) -> bool {
    &&& 0 <= region.x
    &&& 0 <= region.y
    &&& region.x + region.w <= w
    &&& region.y + region.h <= h
}

/// The pixels after a window was spliced in: inside the region, where the
/// effective coverage is positive, the window's; everywhere else, untouched.
pub open spec fn spliced(
    working: Seq<u8>,
    w: int,
    region: Region,
    window: Seq<u8>,
    covered: Seq<bool>,
) -> Seq<u8> {
    Seq::new(
        working.len(),
        |i: int|
            {
                let x = i / 4 % w;
                let y = i / 4 / w;
                let q = (y - region.y) * region.w + (x - region.x);
                if region.has(x, y) && covered[q] {
                    window[4 * q + i % 4]
                } else {
                    working[i]
                }
            },
    )
}

fn read_shifted(base: &[u8], w: u32, h: u32, region: Region, dx: i64, dy: i64) -> (out: Vec<u8>)
    requires
        base@.len() == w * h * 4,
        inside(region, w, h),
        -0x1_0000_0000_0000 <= dx <= 0x1_0000_0000_0000,
        -0x1_0000_0000_0000 <= dy <= 0x1_0000_0000_0000,
    ensures
        out@ == shifted_window(base@, w as int, h as int, region, dx as int, dy as int),
{
    let len: usize = base.len();
    let ghost map = shifted_map(w as int, h as int, region, dx as int, dy as int);
    proof {
        assert(region.w * region.h <= w * h && 0 <= region.w * region.h) by (nonlinear_arith)
            requires
                0 <= region.w <= w,
                0 <= region.h <= h,
        ;
        assert forall|p: int|
            0 <= p < region.w * region.h && 0 <= #[trigger] map(p) implies 4 * map(p) + 4
            <= base@.len() by {
            let x = region.x + p % (region.w as int) + dx;
            let y = region.y + p / (region.w as int) + dy;
            crate::grid::lemma_pixel_index(x, y, w as int, h as int);
        }
    }
    let rw: usize = region.w as usize;
    let n: usize = rw * region.h as usize;
    let pick = |p: usize| -> (q: Option<usize>)
        requires
            p < n,
            n == region.w * region.h,
            rw == region.w,
            inside(region, w, h),
            -0x1_0000_0000_0000 <= dx <= 0x1_0000_0000_0000,
            -0x1_0000_0000_0000 <= dy <= 0x1_0000_0000_0000,
            w * h * 4 <= usize::MAX,
        ensures
            match q {
                Some(i) => i == shifted_map(w as int, h as int, region, dx as int, dy as int)(
                    p as int,
                ),
                None => shifted_map(w as int, h as int, region, dx as int, dy as int)(p as int)
                    < 0,
            },
        {
            proof {
                assert(0 < region.w) by (nonlinear_arith)
                    requires
                        0 <= p < region.w * region.h,
                        0 <= region.w,
                        0 <= region.h,
                ;
                crate::grid::lemma_coordinates(p as int, region.w as int, region.h as int);
            }
            let x: i64 = region.x as i64 + (p % rw) as i64 + dx;
            let y: i64 = region.y as i64 + (p / rw) as i64 + dy;
            if 0 <= x && x < w as i64 && 0 <= y && y < h as i64 {
                proof {
                    crate::grid::lemma_pixel_index(x as int, y as int, w as int, h as int);
                    assert(0 <= y * w) by (nonlinear_arith)
                        requires
                            0 <= y,
                            0 <= w,
                    ;
                }
                Some(y as usize * w as usize + x as usize)
            } else {
                None
            }
        };
    crate::grid::gather(base, 4, n, pick, Ghost(map))
}

impl StrokeSession {
    pub closed spec fn columns(self) -> u32 {
        self.width
    }

    pub closed spec fn rows(self) -> u32 {
        self.height
    }

    /// The untouched pixels.
    pub closed spec fn untouched(self) -> Seq<u8> {
        self.base@
    }

    /// The live painted pixels.
    pub closed spec fn painted(self) -> Seq<u8> {
        self.working@
    }

    pub closed spec fn frozen(self) -> StrokeParams {
        self.params
    }

    pub closed spec fn mask(self) -> Option<Arc<SelectionCoverage>> {
        self.selection
    }

    pub closed spec fn previous(self) -> Option<StrokeSample> {
        self.last
    }

    pub closed spec fn anchor(self) -> Option<CloneSource> {
        self.clone_source
    }

    pub closed spec fn offset(self) -> Option<(i64, i64)> {
        self.clone_offset
    }

    /// The offset, where there is one.
    pub open spec fn shift(self) -> (i64, i64) {
        self.offset().unwrap()
    }

    pub closed spec fn document(self) -> u32 {
        self.handle
    }

    /// What every operation keeps: a canvas with pixels, a base and a working
    /// buffer of its size, and a clone offset in range.
    pub open spec fn wf(self) -> bool {
        &&& self.columns() > 0
        &&& self.rows() > 0
        &&& self.untouched().len() == self.columns() * self.rows() * 4
        &&& self.painted().len() == self.columns() * self.rows() * 4
        &&& self.offset() matches Some(o) ==> in_offset_range(o)
    }

    /// Whether everything but the pixels is the same.
    pub open spec fn same_stroke(self, other: StrokeSession) -> bool {
        &&& self.columns() == other.columns()
        &&& self.rows() == other.rows()
        &&& self.untouched() == other.untouched()
        &&& self.frozen() == other.frozen()
        &&& self.mask() == other.mask()
        &&& self.document() == other.document()
    }

    /// Open a stroke on an image, at 8 bits per channel. The handle says which
    /// document the stroke belongs to.
    pub fn begin(
        handle: u32,
        image: &DecodedImage,
        params: StrokeParams,
        selection: Option<Arc<SelectionCoverage>>,
    ) -> (session: Result<StrokeSession, IngestError>)
        ensures
            opens(
                session,
                handle,
                image.width,
                image.height,
                image.bytes8(),
                params,
                selection,
            ),
    {
        let base: Arc<Vec<u8>> = if image.rgba.is_16bit() {
            let narrow = image.rgba.to_rgba8();
            let mut bytes: Vec<u8> = Vec::new();
            bytes.extend_from_slice(narrow.as_slice());
            proof {
                assert(bytes@ =~= image.bytes8());
            }
            Arc::new(bytes)
        } else {
            image.rgba.raw_arc()
        };
        StrokeSession::begin_on(handle, image.width, image.height, base, params, selection)
    }

    /// Open a stroke on canvas-extent straight RGBA8. The parameters are
    /// sanitized once, here.
    pub fn begin_on(
        handle: u32,
        width: u32,
        height: u32,
        base: Arc<Vec<u8>>,
        params: StrokeParams,
        selection: Option<Arc<SelectionCoverage>>,
    ) -> (session: Result<StrokeSession, IngestError>)
        ensures
            opens(session, handle, width, height, base@, params, selection),
    {
        if width == 0 || height == 0 {
            return Err(unsupported("cannot paint on an empty image"));
        }
        let want: u128 = canvas_bytes(width, height, 4);
        if base.len() as u128 != want {
            return Err(
                IngestError::Decode(
                    mis_sized_text(
                        "paint base is ",
                        base.len(),
                        " bytes for ",
                        width,
                        "×",
                        height,
                        want,
                    ),
                ),
            );
        }
        let mut working: Vec<u8> = Vec::new();
        working.extend_from_slice(base.as_slice());
        proof {
            assert(working@ =~= base@);
        }
        Ok(
            StrokeSession {
                handle,
                width,
                height,
                base,
                working,
                params: params.sanitized(),
                selection,
                last: None,
                clone_source: None,
                clone_offset: None,
            },
        )
    }

    pub fn handle(&self) -> (h: u32)
        ensures
            h == self.document(),
    {
        self.handle
    }

    pub fn width(&self) -> (w: u32)
        ensures
            w == self.columns(),
    {
        self.width
    }

    pub fn height(&self) -> (h: u32)
        ensures
            h == self.rows(),
    {
        self.height
    }

    pub fn params(&self) -> (p: &StrokeParams)
        ensures
            *p == self.frozen(),
    {
        &self.params
    }

    /// The selection the stroke runs under.
    pub fn selection(&self) -> (s: Option<Arc<SelectionCoverage>>)
        ensures
            s == self.mask(),
    {
        match &self.selection {
            Some(c) => Some(Arc::clone(c)),
            None => None,
        }
    }

    /// Point a cloning stroke at its source. The offset is fixed at the first
    /// sample, so the anchor has to be set before it.
    pub fn set_clone_source(&mut self, source: CloneSource)
        requires
            old(self).wf(),
        ensures
            final(self).wf(),
            final(self).same_stroke(*old(self)),
            final(self).painted() == old(self).painted(),
            final(self).previous() == old(self).previous(),
            final(self).offset() == old(self).offset(),
            final(self).anchor() == Some(source),
    {
        self.clone_source = Some(source);
    }

    pub fn clone_source(&self) -> (source: Option<CloneSource>)
        ensures
            source == self.anchor(),
    {
        self.clone_source
    }

    /// The live painted pixels.
    pub fn pixels(&self) -> (px: &[u8])
        ensures
            px@ == self.painted(),
    {
        self.working.as_slice()
    }

    /// Whether a sample leaves this stroke the offset that it should: a sampling
    /// stroke with an anchor takes its offset at its first usable sample, and
    /// otherwise it stays what it was.
    pub open spec fn settles<F: Fn(Scalar, Scalar) -> i64>(
        self,
        before: StrokeSession,
        sample: StrokeSample,
        offset_of: F,
    ) -> bool {
        let usable = sample.x.finite() && sample.y.finite();
        match (before.anchor(), before.offset()) {
            (Some(anchor), None) if usable && before.frozen().tool.sampling() => {
                &&& self.offset() is Some
                &&& offset_of.ensures((anchor.x, sample.x), self.shift().0)
                &&& offset_of.ensures((anchor.y, sample.y), self.shift().1)
            },
            _ => self.offset() == before.offset(),
        }
    }

    /// Whether a sample was taken: one that is no place on the plane is ignored, the
    /// first other one is a dot, and any later one a segment from the one before.
    pub open spec fn takes(
        self,
        before: StrokeSession,
        sample: StrokeSample,
        action: SampleAction,
    ) -> bool {
        let usable = sample.x.finite() && sample.y.finite();
        &&& action == (if !usable {
            SampleAction::Ignore
        } else {
            match before.previous() {
                None => SampleAction::Dot { at: sample },
                Some(prev) => SampleAction::Segment { from: prev, to: sample },
            }
        })
        &&& self.previous() == (if usable {
            Some(sample)
        } else {
            before.previous()
        })
    }

    /// Take a pointer sample. `offset_of` gives the anchor minus the sample along
    /// one axis, in whole pixels; a sampling stroke that has an anchor and no
    /// offset yet takes its offset so, and keeps it for the rest of the stroke.
    pub fn extend<F: Fn(Scalar, Scalar) -> i64>(&mut self, sample: StrokeSample, offset_of: &F) -> (
    action: SampleAction)
        requires
            old(self).wf(),
            forall|a: Scalar, b: Scalar| #[trigger] offset_of.requires((a, b)),
            forall|a: Scalar, b: Scalar, o: i64| #[trigger]
                offset_of.ensures((a, b), o) ==> in_reach(o),
        ensures
            final(self).wf(),
            final(self).same_stroke(*old(self)),
            final(self).painted() == old(self).painted(),
            final(self).anchor() == old(self).anchor(),
            ({
                let usable = sample.x.finite() && sample.y.finite();
                &&& final(self).takes(*old(self), sample, action)
                &&& action is Ignore <==> !usable
                &&& final(self).settles(*old(self), sample, *offset_of)
            }),
    {
        if !sample.x.is_finite() || !sample.y.is_finite() {
            return SampleAction::Ignore;
        }
        if self.params.tool.samples_image() && self.clone_offset.is_none() {
            if let Some(anchor) = self.clone_source {
                let dx: i64 = offset_of(anchor.x, sample.x);
                let dy: i64 = offset_of(anchor.y, sample.y);
                self.clone_offset = Some((dx, dy));
            }
        }
        let action: SampleAction = match self.last {
            None => SampleAction::Dot { at: sample },
            Some(prev) => SampleAction::Segment { from: prev, to: sample },
        };
        self.last = Some(sample);
        action
    }

    /// Copy `region` out of the base.
    pub fn window_rgba8(&self, region: Region) -> (out: Vec<u8>)
        requires
            self.wf(),
            inside(region, self.columns(), self.rows()),
        ensures
            out@ == shifted_window(
                self.untouched(),
                self.columns() as int,
                self.rows() as int,
                region,
                0,
                0,
            ),
    {
        read_shifted(self.base.as_slice(), self.width, self.height, region, 0, 0)
    }

    /// Copy `region`, shifted by `(dx, dy)`, out of the base: the clone and
    /// heal source.
    pub fn source_window_rgba8(&self, region: Region, dx: i64, dy: i64) -> (out: Vec<u8>)
        requires
            self.wf(),
            inside(region, self.columns(), self.rows()),
            in_offset_range((dx, dy)),
        ensures
            out@ == shifted_window(
                self.untouched(),
                self.columns() as int,
                self.rows() as int,
                region,
                dx as int,
                dy as int,
            ),
    {
        read_shifted(self.base.as_slice(), self.width, self.height, region, dx, dy)
    }

    /// The part of a region on the canvas.
    pub fn on_canvas(&self, region: Region) -> (clipped: Option<Region>)
        ensures
            match clipped {
                Some(r) => inside(r, self.columns(), self.rows()) && !r.vacant() && forall|
                    x: int,
                    y: int,
                |
                    #![trigger r.has(x, y)]
                    r.has(x, y) <==> region.has(x, y) && 0 <= x < self.columns() && 0 <= y
                        < self.rows(),
                None => forall|x: int, y: int|
                    #![trigger region.has(x, y)]
                    !(region.has(x, y) && 0 <= x < self.columns() && 0 <= y < self.rows()),
            },
    {
        let canvas: Region = Region::new(0, 0, self.width, self.height);
        let clipped: Option<Region> = region.intersect(canvas);
        proof {
            if let Some(r) = clipped {
                assert(r.has(r.x as int, r.y as int));
                assert(r.has(r.x + r.w - 1, r.y + r.h - 1));
                assert forall|x: int, y: int|
                    #![trigger r.has(x, y)]
                    r.has(x, y) <==> region.has(x, y) && 0 <= x < self.columns() && 0 <= y
                        < self.rows() by {
                    assert(canvas.has(x, y) <==> 0 <= x < self.columns() && 0 <= y < self.rows());
                }
            } else {
                assert forall|x: int, y: int|
                    #![trigger region.has(x, y)]
                    !(region.has(x, y) && 0 <= x < self.columns() && 0 <= y < self.rows()) by {
                    assert(canvas.has(x, y) <==> 0 <= x < self.columns() && 0 <= y < self.rows());
                }
            }
        }
        clipped
    }

    /// What one composite lays down, over the base of a clipped region.
    pub open spec fn lays_down(self, region: Region, paint: StrokePaint) -> bool {
        match paint {
            StrokePaint::Erase => self.frozen().tool is Eraser,
            StrokePaint::Paint { blend, color } => {
                &&& self.frozen().tool is Brush || self.frozen().tool is Pencil
                &&& blend == self.frozen().blend
                &&& color == self.frozen().color
            },
            StrokePaint::Sample { blend, source, heal } => {
                &&& self.frozen().tool.sampling()
                &&& blend == self.frozen().blend
                &&& heal == (self.frozen().tool is Heal)
                &&& self.offset() matches Some(o) && source@ == crate::bridge::widened(
                    shifted_window(
                        self.untouched(),
                        self.columns() as int,
                        self.rows() as int,
                        region,
                        o.0 as int,
                        o.1 as int,
                    ),
                )
            },
        }
    }

    /// Whether one composite of a dirty region is this.
    pub open spec fn composes(self, dirty: Region, work: Option<StrokeComposite>) -> bool {
        &&& (work is None <==> ((forall|x: int, y: int|
            #![trigger dirty.has(x, y)]
            !(dirty.has(x, y) && 0 <= x < self.columns() && 0 <= y < self.rows())) || (
        self.frozen().tool.sampling() && self.offset() is None)))
        &&& (work matches Some(c) ==> {
            &&& inside(c.region, self.columns(), self.rows())
            &&& !c.region.vacant()
            &&& forall|x: int, y: int|
                #![trigger c.region.has(x, y)]
                c.region.has(x, y) <==> dirty.has(x, y) && 0 <= x < self.columns() && 0 <= y
                    < self.rows()
            &&& c.base@ == crate::bridge::widened(
                shifted_window(
                    self.untouched(),
                    self.columns() as int,
                    self.rows() as int,
                    c.region,
                    0,
                    0,
                ),
            )
            &&& self.lays_down(c.region, c.paint)
        })
    }

    /// Plan the composite of a dirty region, always from the base. Nothing is
    /// laid down off the canvas, nor by a sampling stroke that has no anchor: a
    /// clone with nowhere to read from deposits nothing.
    pub fn composite(&self, dirty: Region) -> (work: Option<StrokeComposite>)
        requires
            self.wf(),
        ensures
            self.composes(dirty, work),
    {
        let region: Region = match self.on_canvas(dirty) {
            Some(r) => r,
            None => {
                return None;
            },
        };
        proof {
            assert(region.has(region.x as int, region.y as int));
            assert(dirty.has(region.x as int, region.y as int));
        }
        let paint: StrokePaint = match self.params.solid_paint_mode() {
            Some(PaintMode::Erase) => StrokePaint::Erase,
            Some(PaintMode::Paint { blend, color }) => StrokePaint::Paint { blend, color },
            None => {
                let (dx, dy): (i64, i64) = match self.clone_offset {
                    Some(o) => o,
                    None => {
                        return None;
                    },
                };
                let source: Vec<u8> = self.source_window_rgba8(region, dx, dy);
                StrokePaint::Sample {
                    blend: self.params.blend,
                    source: rgba8_to_f16(source.as_slice()),
                    heal: self.params.tool.tone_matches(),
                }
            },
        };
        let window: Vec<u8> = self.window_rgba8(region);
        Some(StrokeComposite { region, base: rgba8_to_f16(window.as_slice()), paint })
    }

    /// Whether a window is `region` with six pixels of surroundings on every
    /// side, clipped to the canvas: the base there, and the base at the clone
    /// offset.
    pub open spec fn surrounds(self, region: Region, w: HealWindow) -> bool {
        &&& inside(w.frame, self.columns(), self.rows())
        &&& forall|x: int, y: int|
            #![trigger w.frame.has(x, y)]
            w.frame.has(x, y) <==> region.x - 6 <= x < region.x + region.w + 6 && region.y - 6 <= y
                < region.y + region.h + 6 && 0 <= x < self.columns() && 0 <= y < self.rows()
        &&& w.dest@ == shifted_window(
            self.untouched(),
            self.columns() as int,
            self.rows() as int,
            w.frame,
            0,
            0,
        )
        &&& w.source@ == shifted_window(
            self.untouched(),
            self.columns() as int,
            self.rows() as int,
            w.frame,
            self.shift().0 as int,
            self.shift().1 as int,
        )
    }

    /// The window a healing correction for `region` is solved on: six pixels
    /// of surroundings on every side, clipped to the canvas. A dab's own region
    /// has no boundary to interpolate from.
    pub fn heal_window(&self, region: Region) -> (window: Option<HealWindow>)
        requires
            self.wf(),
            inside(region, self.columns(), self.rows()),
            !region.vacant(),
            self.columns() <= i32::MAX,
            self.rows() <= i32::MAX,
        ensures
            window is Some <==> self.offset() is Some,
            window matches Some(w) ==> self.surrounds(region, w),
    {
        let (dx, dy): (i64, i64) = match self.clone_offset {
            Some(o) => o,
            None => {
                return None;
            },
        };
        let x0: i32 = if region.x >= 6 {
            region.x - 6
        } else {
            0
        };
        let y0: i32 = if region.y >= 6 {
            region.y - 6
        } else {
            0
        };
        let right: i64 = region.x as i64 + region.w as i64 + 6;
        let bottom: i64 = region.y as i64 + region.h as i64 + 6;
        let x1: i64 = if right <= self.width as i64 {
            right
        } else {
            self.width as i64
        };
        let y1: i64 = if bottom <= self.height as i64 {
            bottom
        } else {
            self.height as i64
        };
        let frame: Region = Region {
            x: x0,
            y: y0,
            w: (x1 - x0 as i64) as u32,
            h: (y1 - y0 as i64) as u32,
        };
        let dest: Vec<u8> = self.window_rgba8(frame);
        let source: Vec<u8> = self.source_window_rgba8(frame, dx, dy);
        Some(HealWindow { frame, dest, source })
    }

    /// Write `window` back at `region`, only where the effective coverage is
    /// positive. Everything else stays as it is in bytes, not just in value.
    pub fn splice(&mut self, region: Region, window: &[u8], covered: &[bool])
        requires
            old(self).wf(),
            inside(region, old(self).columns(), old(self).rows()),
            window@.len() == region.w * region.h * 4,
            covered@.len() == region.w * region.h,
        ensures
            final(self).wf(),
            final(self).same_stroke(*old(self)),
            final(self).previous() == old(self).previous(),
            final(self).anchor() == old(self).anchor(),
            final(self).offset() == old(self).offset(),
            final(self).painted() == spliced(
                old(self).painted(),
                old(self).columns() as int,
                region,
                window@,
                covered@,
            ),
    {
        let ghost before = self.painted();
        let ghost goal = spliced(before, self.width as int, region, window@, covered@);
        let (w, h): (u32, u32) = (self.width, self.height);
        let total: usize = self.working.len();
        let count: usize = covered.len();
        let bytes: usize = window.len();
        let mut y: u32 = 0;
        while y < region.h
            invariant
                w == self.width,
                h == self.height,
                0 < w,
                0 < h,
                inside(region, w, h),
                total == w * h * 4,
                before.len() == total,
                self.working@.len() == total,
                goal == spliced(before, w as int, region, window@, covered@),
                window@.len() == region.w * region.h * 4,
                covered@.len() == region.w * region.h,
                count == covered@.len(),
                bytes == window@.len(),
                y <= region.h,
                forall|i: int|
                    0 <= i < total ==> #[trigger] self.working@[i] == (if i / 4 / (w as int)
                        < region.y + y {
                        goal[i]
                    } else {
                        before[i]
                    }),
                self.width == old(self).width,
                self.height == old(self).height,
                self.base == old(self).base,
                self.params == old(self).params,
                self.selection == old(self).selection,
                self.last == old(self).last,
                self.clone_source == old(self).clone_source,
                self.clone_offset == old(self).clone_offset,
                self.handle == old(self).handle,
            decreases region.h - y,
        {
            let mut x: u32 = 0;
            proof {
                assert forall|i: int| 0 <= i < total implies #[trigger] self.working@[i] == (if i / 4
                    / (w as int) < region.y + y || (i / 4 / (w as int) == region.y + y && i / 4 % (
                w as int) < region.x + x) {
                    goal[i]
                } else {
                    before[i]
                }) by {
                    crate::grid::lemma_coordinates(i / 4, w as int, h as int);
                }
            }
            while x < region.w
                invariant
                    w == self.width,
                    h == self.height,
                    0 < w,
                    0 < h,
                    inside(region, w, h),
                    total == w * h * 4,
                    before.len() == total,
                    self.working@.len() == total,
                    goal == spliced(before, w as int, region, window@, covered@),
                    window@.len() == region.w * region.h * 4,
                    covered@.len() == region.w * region.h,
                    count == covered@.len(),
                    bytes == window@.len(),
                    y < region.h,
                    x <= region.w,
                    forall|i: int|
                        0 <= i < total ==> #[trigger] self.working@[i] == (if i / 4 / (w as int)
                            < region.y + y || (i / 4 / (w as int) == region.y + y && i / 4 % (
                        w as int) < region.x + x) {
                            goal[i]
                        } else {
                            before[i]
                        }),
                    self.width == old(self).width,
                    self.height == old(self).height,
                    self.base == old(self).base,
                    self.params == old(self).params,
                    self.selection == old(self).selection,
                    self.last == old(self).last,
                    self.clone_source == old(self).clone_source,
                    self.clone_offset == old(self).clone_offset,
                    self.handle == old(self).handle,
                decreases region.w - x,
            {
                let ix: usize = region.x as usize + x as usize;
                let iy: usize = region.y as usize + y as usize;
                let ghost p = iy * w + ix;
                let ghost q = y * region.w + x;
                proof {
                    crate::grid::lemma_pixel_index(ix as int, iy as int, w as int, h as int);
                    crate::grid::lemma_pixel_index(
                        x as int,
                        y as int,
                        region.w as int,
                        region.h as int,
                    );
                    assert(0 <= iy * w && 0 <= y * region.w) by (nonlinear_arith)
                        requires
                            0 <= iy,
                            0 <= w,
                            0 <= y,
                            0 <= region.w,
                    ;
                    assert(region.has(ix as int, iy as int));
                }
                let src: usize = y as usize * region.w as usize + x as usize;
                let dst: usize = iy * w as usize + ix;
                let ghost then = self.working@;
                if covered[src] {
                    self.working[4 * dst] = window[4 * src];
                    self.working[4 * dst + 1] = window[4 * src + 1];
                    self.working[4 * dst + 2] = window[4 * src + 2];
                    self.working[4 * dst + 3] = window[4 * src + 3];
                }
                x = x + 1;
                proof {
                    assert forall|i: int| 0 <= i < total implies #[trigger] self.working@[i] == (if i
                        / 4 / (w as int) < region.y + y || (i / 4 / (w as int) == region.y + y && i
                        / 4 % (w as int) < region.x + x) {
                        goal[i]
                    } else {
                        before[i]
                    }) by {
                        crate::grid::lemma_coordinates(i / 4, w as int, h as int);
                        if i / 4 == p {
                            assert(i == 4 * p + i % 4);
                            assert(then[i] == before[i]);
                        } else {
                            assert(self.working@[i] == then[i]);
                        }
                    }
                }
            }
            y = y + 1;
            proof {
                assert forall|i: int| 0 <= i < total implies #[trigger] self.working@[i] == (if i / 4
                    / (w as int) < region.y + y {
                    goal[i]
                } else {
                    before[i]
                }) by {
                    crate::grid::lemma_coordinates(i / 4, w as int, h as int);
                    let (px, py) = (i / 4 % (w as int), i / 4 / (w as int));
                    if py == region.y + y - 1 && px >= region.x + region.w {
                        assert(!region.has(px, py));
                    }
                }
            }
        }
        proof {
            assert forall|i: int| 0 <= i < total implies self.working@[i] == goal[i] by {
                crate::grid::lemma_coordinates(i / 4, w as int, h as int);
                let (px, py) = (i / 4 % (w as int), i / 4 / (w as int));
                if py >= region.y + region.h {
                    assert(!region.has(px, py));
                }
            }
            assert(self.working@ =~= goal);
        }
    }

    /// Finish: hand back the painted pixels.
    pub fn commit(self) -> (px: Vec<u8>)
        ensures
            px@ == self.painted(),
    {
        self.working
    }
}

/// Whether opening a stroke on the pixels `base` gives `session`.
pub open spec fn opens(
    session: Result<StrokeSession, IngestError>,
    handle: u32,
    width: u32,
    height: u32,
    base: Seq<u8>,
    params: StrokeParams,
    selection: Option<Arc<SelectionCoverage>>,
) -> bool {
    match session {
        Ok(s) => {
            &&& width > 0
            &&& height > 0
            &&& base.len() == width * height * 4
            &&& s.wf()
            &&& s.document() == handle
            &&& s.columns() == width
            &&& s.rows() == height
            &&& s.untouched() == base
            &&& s.painted() == base
            &&& sanitizes(params, s.frozen())
            &&& s.mask() == selection
            &&& s.previous() is None
            &&& s.anchor() is None
            &&& s.offset() is None
        },
        Err(e) => if width == 0 || height == 0 {
            e.is_unsupported("cannot paint on an empty image"@)
        } else {
            &&& base.len() != width * height * 4
            &&& e.is_decode(
                crate::ingest::mis_sized(
                    "paint base is "@,
                    base.len(),
                    " bytes for "@,
                    width,
                    "×"@,
                    height,
                    (width * height * 4) as nat,
                ),
            )
        },
    }
}

/// Whether an offset along one axis is in range.
pub open spec fn in_reach(o: i64) -> bool {
    -0x1_0000_0000_0000 <= o <= 0x1_0000_0000_0000
}

/// Whether a clone offset is in range.
pub open spec fn in_offset_range(o: (i64, i64)) -> bool {
    in_reach(o.0) && in_reach(o.1)
}

/// A byte under zero coverage, or outside of the region, survives a splice
/// unchanged: a brush cannot paint outside the selection.
pub proof fn a_splice_keeps_uncovered_bytes(
    working: Seq<u8>,
    w: int,
    region: Region,
    window: Seq<u8>,
    covered: Seq<bool>,
    i: int,
)
    requires
        0 < w,
        0 <= i < working.len(),
        ({
            let (x, y) = (i / 4 % w, i / 4 / w);
            !region.has(x, y) || !covered[(y - region.y) * region.w + (x - region.x)]
        }),
    ensures
        spliced(working, w, region, window, covered)[i] == working[i],
{
}

/// An unshifted window is the region's own pixels: the pixel at column `i` of
/// row `j` of the window is the canvas pixel that far from the region's corner.
pub proof fn an_unshifted_window_is_the_region(
    base: Seq<u8>,
    w: u32,
    h: u32,
    region: Region,
    i: int,
    j: int,
    k: int,
)
    requires
        base.len() == w * h * 4,
        inside(region, w, h),
        0 <= i < region.w,
        0 <= j < region.h,
        0 <= k < 4,
    ensures
        shifted_window(base, w as int, h as int, region, 0, 0)[4 * (j * region.w + i) + k]
            == base[4 * ((region.y + j) * w + region.x + i) + k],
{
    let map = shifted_map(w as int, h as int, region, 0, 0);
    let q = j * region.w + i;
    crate::grid::lemma_pixel_index(i, j, region.w as int, region.h as int);
    crate::grid::gathered_pixel(base, 4, (region.w * region.h) as nat, map, q, k);
    crate::grid::lemma_pixel_index(region.x + i, region.y + j, w as int, h as int);
}

/// Three numbers per pixel of a healing field.
pub open spec fn cropped_field(
    field: Seq<Scalar>,
    frame: Region,
    region: Region,
) -> Seq<Scalar> {
    Seq::new(
        (3 * (region.w * region.h)) as nat,
        |i: int|
            {
                let x = i / 3 % (region.w as int) + region.x - frame.x;
                let y = i / 3 / (region.w as int) + region.y - frame.y;
                field[3 * (y * frame.w + x) + i % 3]
            },
    )
}

/// Crop a correction field, three numbers per pixel of `frame`, back to the
/// region the composite writes.
pub fn crop_field(field: &[Scalar], frame: Region, region: Region) -> (out: Vec<Scalar>)
    requires
        field@.len() == 3 * (frame.w * frame.h),
        frame.x <= region.x,
        frame.y <= region.y,
        region.x + region.w <= frame.x + frame.w,
        region.y + region.h <= frame.y + frame.h,
    ensures
        out@ == cropped_field(field@, frame, region),
{
    let ghost goal = cropped_field(field@, frame, region);
    let total: usize = field.len();
    let ox: usize = (region.x as i64 - frame.x as i64) as usize;
    let oy: usize = (region.y as i64 - frame.y as i64) as usize;
    let (rw, fw): (usize, usize) = (region.w as usize, frame.w as usize);
    proof {
        assert(region.w * region.h <= frame.w * frame.h && 0 <= region.w * region.h)
            by (nonlinear_arith)
            requires
                0 <= region.w <= frame.w,
                0 <= region.h <= frame.h,
        ;
    }
    let n: usize = rw * region.h as usize;
    let mut out: Vec<Scalar> = Vec::new();
    let mut p: usize = 0;
    while p < n
        invariant
            total == field@.len(),
            field@.len() == 3 * (frame.w * frame.h),
            frame.x <= region.x,
            frame.y <= region.y,
            region.x + region.w <= frame.x + frame.w,
            region.y + region.h <= frame.y + frame.h,
            goal == cropped_field(field@, frame, region),
            ox == region.x - frame.x,
            oy == region.y - frame.y,
            rw == region.w,
            fw == frame.w,
            n == region.w * region.h,
            p <= n,
            out@.len() == 3 * p,
            forall|i: int| 0 <= i < 3 * p ==> #[trigger] out@[i] == goal[i],
        decreases n - p,
    {
        proof {
            assert(0 < region.w) by (nonlinear_arith)
                requires
                    0 <= p < region.w * region.h,
                    0 <= region.w,
                    0 <= region.h,
            ;
            crate::grid::lemma_coordinates(p as int, region.w as int, region.h as int);
        }
        let x: usize = p % rw + ox;
        let y: usize = p / rw + oy;
        proof {
            crate::grid::lemma_pixel_index(x as int, y as int, frame.w as int, frame.h as int);
            assert(0 <= y * fw) by (nonlinear_arith)
                requires
                    0 <= y,
                    0 <= fw,
            ;
        }
        let at: usize = 3 * (y * fw + x);
        out.push(field[at]);
        out.push(field[at + 1]);
        out.push(field[at + 2]);
        p = p + 1;
        proof {
            assert forall|i: int| 0 <= i < 3 * p implies #[trigger] out@[i] == goal[i] by {
                if i >= 3 * (p - 1) {
                    assert(i / 3 == p - 1);
                }
            }
        }
    }
    proof {
        assert(out@ =~= goal);
    }
    out
}

/// Whether `cells` are the stroke's footprint on a frame: 255 where it covers,
/// 0 elsewhere.
pub open spec fn footprint<C: Fn(u32, u32) -> bool>(
    covered: C,
    frame: Region,
    cells: Seq<u8>,
) -> bool {
    &&& cells.len() == frame.w * frame.h
    &&& forall|i: int|
        0 <= i < cells.len() ==> {
            let x = (frame.x + i % (frame.w as int)) as u32;
            let y = (frame.y + i / (frame.w as int)) as u32;
            ||| #[trigger] cells[i] == 255 && covered.ensures((x, y), true)
            ||| cells[i] == 0 && covered.ensures((x, y), false)
        }
}

fn take_footprint<C: Fn(u32, u32) -> bool>(frame: Region, covered: &C) -> (cells: Vec<u8>)
    requires
        0 <= frame.x,
        0 <= frame.y,
        frame.x + frame.w <= u32::MAX,
        frame.y + frame.h <= u32::MAX,
        frame.w * frame.h <= usize::MAX,
        forall|x: u32, y: u32| #[trigger] covered.requires((x, y)),
    ensures
        footprint(*covered, frame, cells@),
{
    let mut cells: Vec<u8> = Vec::new();
    let n: usize = frame.w as usize * frame.h as usize;
    let mut i: usize = 0;
    while i < n
        invariant
            0 <= frame.x,
            0 <= frame.y,
            frame.x + frame.w <= u32::MAX,
            frame.y + frame.h <= u32::MAX,
            n == frame.w * frame.h,
            i <= n,
            forall|x: u32, y: u32| #[trigger] covered.requires((x, y)),
            cells@.len() == i,
            forall|k: int|
                0 <= k < i ==> {
                    let x = (frame.x + k % (frame.w as int)) as u32;
                    let y = (frame.y + k / (frame.w as int)) as u32;
                    ||| #[trigger] cells@[k] == 255 && covered.ensures((x, y), true)
                    ||| cells@[k] == 0 && covered.ensures((x, y), false)
                },
        decreases n - i,
    {
        proof {
            assert(0 < frame.w) by (nonlinear_arith)
                requires
                    0 <= i < frame.w * frame.h,
                    0 <= frame.w,
                    0 <= frame.h,
            ;
            crate::grid::lemma_coordinates(i as int, frame.w as int, frame.h as int);
        }
        let x: u32 = frame.x as u32 + (i % frame.w as usize) as u32;
        let y: u32 = frame.y as u32 + (i / frame.w as usize) as u32;
        let c: bool = covered(x, y);
        let ghost before = cells@;
        cells.push(
            if c {
                255
            } else {
                0
            },
        );
        proof {
            assert(x == (frame.x + (i as int) % (frame.w as int)) as u32);
            assert(y == (frame.y + (i as int) / (frame.w as int)) as u32);
            assert(covered.ensures((x, y), c));
            assert(forall|k: int| 0 <= k < i ==> cells@[k] == before[k]);
        }
        i = i + 1;
    }
    cells
}

impl StrokeSession {
    /// Whether a correction was solved for a region: on its surroundings, over
    /// the stroke's footprint, cropped back and packed.
    pub open spec fn corrects<
        C: Fn(u32, u32) -> bool,
        D: Fn(u8, u8) -> Scalar,
        M: Fn(&Vec<Scalar>) -> Scalar,
        A: Fn(Scalar, Scalar, Scalar, Scalar) -> Scalar,
        H: Fn(Scalar) -> u16,
    >(
        self,
        region: Region,
        covered: C,
        difference: D,
        mean: M,
        average: A,
        half: H,
        w: HealWindow,
        cells: Seq<u8>,
        field: Seq<Scalar>,
        out: Seq<u8>,
    ) -> bool {
        &&& self.surrounds(region, w)
        &&& footprint(covered, w.frame, cells)
        &&& crate::heal::heals(
            difference,
            mean,
            average,
            w.dest@,
            w.source@,
            cells,
            w.frame.w as int,
            w.frame.h as int,
            field,
        )
        &&& crate::heal::packs(
            half,
            cropped_field(field, w.frame, region),
            region.w * region.h,
            out,
        )
    }

    /// Whether bytes are a correction solved for a region.
    pub open spec fn corrected<
        C: Fn(u32, u32) -> bool,
        D: Fn(u8, u8) -> Scalar,
        M: Fn(&Vec<Scalar>) -> Scalar,
        A: Fn(Scalar, Scalar, Scalar, Scalar) -> Scalar,
        H: Fn(Scalar) -> u16,
    >(
        self,
        region: Region,
        covered: C,
        difference: D,
        mean: M,
        average: A,
        half: H,
        out: Seq<u8>,
    ) -> bool {
        exists|w: HealWindow, cells: Seq<u8>, field: Seq<Scalar>| #[trigger]
            self.corrects(
                region,
                covered,
                difference,
                mean,
                average,
                half,
                w,
                cells,
                field,
                out,
            )
    }

    /// Whether the surroundings of a region hold no boundary of the stroke's
    /// footprint.
    pub open spec fn unbounded<C: Fn(u32, u32) -> bool>(
        self,
        region: Region,
        covered: C,
        w: HealWindow,
        cells: Seq<u8>,
    ) -> bool {
        &&& self.surrounds(region, w)
        &&& footprint(covered, w.frame, cells)
        &&& !crate::heal::solvable(w.dest@, w.source@, cells, w.frame.w * w.frame.h)
    }

    /// The healing correction for `region`, solved on its surroundings and
    /// cropped back. None where the stroke has no source, or where there is no
    /// boundary to interpolate from: no correction is invented.
    pub fn heal_field<
        C: Fn(u32, u32) -> bool,
        D: Fn(u8, u8) -> Scalar,
        M: Fn(&Vec<Scalar>) -> Scalar,
        A: Fn(Scalar, Scalar, Scalar, Scalar) -> Scalar,
        H: Fn(Scalar) -> u16,
    >(
        &self,
        region: Region,
        covered: &C,
        difference: &D,
        mean: &M,
        average: &A,
        half: &H,
    ) -> (correction: Option<Vec<u8>>)
        requires
            self.wf(),
            inside(region, self.columns(), self.rows()),
            !region.vacant(),
            self.columns() <= i32::MAX,
            self.rows() <= i32::MAX,
            region.w * region.h * 8 <= usize::MAX,
            forall|x: u32, y: u32| #[trigger] covered.requires((x, y)),
            forall|a: u8, b: u8| #[trigger] difference.requires((a, b)),
            forall|v: Vec<Scalar>| v@.len() > 0 ==> #[trigger] mean.requires((&v,)),
            forall|a: Scalar, b: Scalar, c: Scalar, d: Scalar| #[trigger]
                average.requires((a, b, c, d)),
            forall|s: Scalar| #[trigger] half.requires((s,)),
        ensures
            correction is Some ==> self.offset() is Some,
            correction matches Some(bytes) ==> self.corrected(
                region,
                *covered,
                *difference,
                *mean,
                *average,
                *half,
                bytes@,
            ),
            correction is None ==> self.offset() is None || exists|w: HealWindow, cells: Seq<u8>|
                #[trigger] self.unbounded(region, *covered, w, cells),
    {
        let total: usize = self.base.len();
        let w: HealWindow = match self.heal_window(region) {
            Some(w) => w,
            None => {
                return None;
            },
        };
        proof {
            assert(total == self.columns() * self.rows() * 4);
            assert(region.has(region.x as int, region.y as int));
            assert(region.has(region.x + region.w - 1, region.y + region.h - 1));
            assert(w.frame.has(region.x as int, region.y as int));
            assert(w.frame.has(region.x + region.w - 1, region.y + region.h - 1));
            assert(w.frame.w * w.frame.h <= self.columns() * self.rows() && 0 <= w.frame.w
                * w.frame.h && self.columns() * self.rows() <= self.columns() * self.rows() * 4)
                by (nonlinear_arith)
                requires
                    0 <= w.frame.w <= self.columns(),
                    0 <= w.frame.h <= self.rows(),
            ;
        }
        let cells: Vec<u8> = take_footprint(w.frame, covered);
        let field: Vec<Scalar> = match correction_field(
            w.dest.as_slice(),
            w.source.as_slice(),
            cells.as_slice(),
            w.frame.w as usize,
            w.frame.h as usize,
            difference,
            mean,
            average,
        ) {
            Some(f) => f,
            None => {
                proof {
                    assert(self.unbounded(region, *covered, w, cells@));
                }
                return None;
            },
        };
        let cut: Vec<Scalar> = crop_field(field.as_slice(), w.frame, region);
        let out: Vec<u8> = field_to_f16(
            cut.as_slice(),
            region.w as usize * region.h as usize,
            half,
        );
        proof {
            assert(self.corrects(
                region,
                *covered,
                *difference,
                *mean,
                *average,
                *half,
                w,
                cells@,
                field@,
                out@,
            ));
        }
        Some(out)
    }
}

/// A brush tip.
#[derive(Debug, Clone, Copy, PartialEq, Eq, Structural)]
pub struct BrushTip {
    pub diameter: Scalar,
    pub hardness: Scalar,
    pub antialias: bool,
}

impl StrokeParams {
    /// Whether a dab at a pressure has this tip.
    pub open spec fn tips<F: Fn(Scalar) -> Scalar, P: Fn(Scalar, Scalar) -> Scalar>(
        self,
        pressure: Scalar,
        share: F,
        product: P,
        tip: BrushTip,
    ) -> bool {
        &&& tip.hardness == self.hardness
        &&& tip.antialias == !(self.tool is Pencil)
        &&& exists|scale: Scalar, d: Scalar| #[trigger]
            product.ensures((self.size, scale), d) && scales(
                self.pressure.drives_size(),
                pressure,
                share,
                scale,
            ) && tip.diameter == (if crate::scalar::zero().below(d) {
                d
            } else {
                crate::scalar::zero()
            })
    }

    /// Whether a dab at a pressure has this flow.
    pub open spec fn flows<F: Fn(Scalar) -> Scalar, P: Fn(Scalar, Scalar) -> Scalar>(
        self,
        pressure: Scalar,
        share: F,
        product: P,
        flow: Scalar,
    ) -> bool {
        exists|scale: Scalar| #[trigger]
            product.ensures((self.flow, scale), flow) && scales(
                self.pressure.drives_flow(),
                pressure,
                share,
                scale,
            )
    }

    /// The tip of a dab at a pressure.
    pub fn tip_at<F: Fn(Scalar) -> Scalar, P: Fn(Scalar, Scalar) -> Scalar>(
        &self,
        pressure: Scalar,
        share: &F,
        product: &P,
    ) -> (tip: BrushTip)
        requires
            share.requires((pressure,)),
            forall|scale: Scalar| #[trigger] product.requires((self.size, scale)),
        ensures
            self.tips(pressure, *share, *product, tip),
    {
        let d: Scalar = product(self.size, self.pressure.size_scale(pressure, share));
        let zero: Scalar = Scalar { bits: ZERO };
        BrushTip {
            diameter: if zero.lt(d) {
                d
            } else {
                zero
            },
            hardness: self.hardness,
            antialias: self.tool.antialias(),
        }
    }

    /// The flow of a dab at a pressure.
    pub fn flow_at<F: Fn(Scalar) -> Scalar, P: Fn(Scalar, Scalar) -> Scalar>(
        &self,
        pressure: Scalar,
        share: &F,
        product: &P,
    ) -> (flow: Scalar)
        requires
            share.requires((pressure,)),
            forall|scale: Scalar| #[trigger] product.requires((self.flow, scale)),
        ensures
            self.flows(pressure, *share, *product, flow),
    {
        product(self.flow, self.pressure.flow_scale(pressure, share))
    }

    /// The arc length between dabs: a fraction of the full diameter, whatever
    /// the pressure, so that faint passages are stamped as densely as heavy
    /// ones.
    pub fn step_px<P: Fn(Scalar, Scalar) -> Scalar>(&self, product: &P) -> (step: Scalar)
        requires
            product.requires((self.size, self.spacing)),
        ensures
            product.ensures((self.size, self.spacing), step),
    {
        product(self.size, self.spacing)
    }
}

/// A shifted window is the base at the offset: the pixel at column `i` of row `j`
/// is the base pixel that many columns and rows from the region's corner, moved
/// right by `dx` and down by `dy`. Off the canvas it is transparent black.
pub proof fn a_shifted_window_is_the_base_at_the_offset(
    base: Seq<u8>,
    w: u32,
    h: u32,
    region: Region,
    dx: int,
    dy: int,
    i: int,
    j: int,
    k: int,
)
    requires
        base.len() == w * h * 4,
        0 <= i < region.w,
        0 <= j < region.h,
        0 <= k < 4,
    ensures
        shifted_window(base, w as int, h as int, region, dx, dy).len() == 4 * (region.w * region.h),
        shifted_window(base, w as int, h as int, region, dx, dy)[4 * (j * region.w + i) + k] == (
        if 0 <= region.x + i + dx < w && 0 <= region.y + j + dy < h {
            base[4 * ((region.y + j + dy) * w + (region.x + i + dx)) + k]
        } else {
            0
        }),
{
    let map = shifted_map(w as int, h as int, region, dx, dy);
    let q = j * region.w + i;
    crate::grid::lemma_pixel_index(i, j, region.w as int, region.h as int);
    crate::grid::gathered_pixel(base, 4, (region.w * region.h) as nat, map, q, k);
    let (x, y) = (region.x + i + dx, region.y + j + dy);
    if 0 <= x < w && 0 <= y < h {
        crate::grid::lemma_pixel_index(x, y, w as int, h as int);
    }
}

/// Reading at an offset is reading the region moved by it: a window read at
/// `(dx, dy)` is the plain window of the region that far to the right and below,
/// where that region lies on the canvas.
pub proof fn an_offset_moves_the_region(
    base: Seq<u8>,
    w: u32,
    h: u32,
    region: Region,
    moved: Region,
    dx: int,
    dy: int,
)
    requires
        base.len() == w * h * 4,
        inside(moved, w, h),
        moved.x == region.x + dx,
        moved.y == region.y + dy,
        moved.w == region.w,
        moved.h == region.h,
    ensures
        shifted_window(base, w as int, h as int, region, dx, dy) == shifted_window(
            base,
            w as int,
            h as int,
            moved,
            0,
            0,
        ),
{
    let a = shifted_window(base, w as int, h as int, region, dx, dy);
    let b = shifted_window(base, w as int, h as int, moved, 0, 0);
    assert forall|p: int|
        #![trigger shifted_map(w as int, h as int, region, dx, dy)(p)]
        shifted_map(w as int, h as int, region, dx, dy)(p) == shifted_map(
            w as int,
            h as int,
            moved,
            0,
            0,
        )(p) by {}
    assert(a =~= b);
}

/// A splice lays the window over the region: the covered pixel at column `i` of
/// row `j` of the window lands that many columns and rows from the region's
/// corner, and an uncovered one leaves the canvas as it is there.
pub proof fn a_splice_lays_the_window_over_the_region(
    working: Seq<u8>,
    w: u32,
    h: u32,
    region: Region,
    window: Seq<u8>,
    covered: Seq<bool>,
    i: int,
    j: int,
    k: int,
)
    requires
        working.len() == w * h * 4,
        inside(region, w, h),
        0 <= i < region.w,
        0 <= j < region.h,
        0 <= k < 4,
    ensures
        spliced(working, w as int, region, window, covered).len() == working.len(),
        spliced(working, w as int, region, window, covered)[4 * ((region.y + j) * w + (region.x
            + i)) + k] == (if covered[j * region.w + i] {
            window[4 * (j * region.w + i) + k]
        } else {
            working[4 * ((region.y + j) * w + (region.x + i)) + k]
        }),
{
    let (x, y) = (region.x + i, region.y + j);
    let p = y * w + x;
    crate::grid::lemma_pixel_index(x, y, w as int, h as int);
    crate::grid::lemma_split(4, p, k);
    assert(region.has(x, y));
}

/// A splice touches no pixel outside of its region.
pub proof fn a_splice_stays_in_the_region(
    working: Seq<u8>,
    w: u32,
    h: u32,
    region: Region,
    window: Seq<u8>,
    covered: Seq<bool>,
    x: int,
    y: int,
    k: int,
)
    requires
        working.len() == w * h * 4,
        0 <= x < w,
        0 <= y < h,
        0 <= k < 4,
        x < region.x || region.x + region.w <= x || y < region.y || region.y + region.h <= y,
    ensures
        spliced(working, w as int, region, window, covered)[4 * (y * w + x) + k] == working[4 * (y
            * w + x) + k],
{
    let p = y * w + x;
    crate::grid::lemma_pixel_index(x, y, w as int, h as int);
    crate::grid::lemma_split(4, p, k);
    assert(!region.has(x, y));
}

/// A correction is cropped in place: each pixel of the region keeps the three
/// numbers that were solved for that very pixel of the canvas.
pub proof fn a_crop_keeps_each_pixels_own_correction(
    field: Seq<Scalar>,
    frame: Region,
    region: Region,
    x: int,
    y: int,
    ch: int,
)
    requires
        region.x <= x < region.x + region.w,
        region.y <= y < region.y + region.h,
        0 <= ch < 3,
    ensures
        cropped_field(field, frame, region).len() == 3 * (region.w * region.h),
        cropped_field(field, frame, region)[3 * ((y - region.y) * region.w + (x - region.x)) + ch]
            == field[3 * ((y - frame.y) * frame.w + (x - frame.x)) + ch],
{
    let (i, j) = (x - region.x, y - region.y);
    let q = j * region.w + i;
    crate::grid::lemma_pixel_index(i, j, region.w as int, region.h as int);
    crate::grid::lemma_split(3, q, ch);
    assert(0 <= 3 * q + ch < 3 * (region.w * region.h));
}

/// A footprint is set where the stroke covers the canvas, pixel for pixel.
pub proof fn a_footprint_is_where_the_stroke_covers<C: Fn(u32, u32) -> bool>(
    covered: C,
    frame: Region,
    cells: Seq<u8>,
    x: u32,
    y: u32,
)
    requires
        footprint(covered, frame, cells),
        frame.x <= x < frame.x + frame.w,
        frame.y <= y < frame.y + frame.h,
    ensures
        ({
            let cell = cells[(y - frame.y) * frame.w + (x - frame.x)];
            ||| cell == 255 && covered.ensures((x, y), true)
            ||| cell == 0 && covered.ensures((x, y), false)
        }),
{
    let (i, j) = (x - frame.x, y - frame.y);
    crate::grid::lemma_pixel_index(i, j, frame.w as int, frame.h as int);
    assert(cells[j * frame.w + i] == cells[j * frame.w + i]);
}

/// What a stroke lays down is settled by its tool: the eraser erases, the brush
/// and the pencil paint the stroke's colour in its blend, and the clone and the
/// heal lay down base pixels from where the offset points, of which only the heal
/// corrects the tone.
pub proof fn a_tool_lays_down_its_own_paint(s: StrokeSession, region: Region, paint: StrokePaint)
    requires
        s.lays_down(region, paint),
    ensures
        match s.frozen().tool {
            StrokeTool::Eraser => paint is Erase,
            StrokeTool::Brush | StrokeTool::Pencil => paint matches StrokePaint::Paint {
                blend,
                color,
            } && blend == s.frozen().blend && color == s.frozen().color,
            StrokeTool::Clone => paint matches StrokePaint::Sample { blend, heal, .. } && blend
                == s.frozen().blend && !heal && s.offset() is Some,
            StrokeTool::Heal => paint matches StrokePaint::Sample { blend, heal, .. } && blend
                == s.frozen().blend && heal && s.offset() is Some,
        },
{
}

/// The heal window sets the base beside itself moved by the offset: for each pixel
/// of the frame the destination is the base there, and the source the base as far
/// to the right and below as the clone offset says, transparent off the canvas.
pub proof fn a_heal_window_pairs_the_base_with_its_source(
    s: StrokeSession,
    region: Region,
    v: HealWindow,
    x: int,
    y: int,
    k: int,
)
    requires
        s.wf(),
        s.offset() is Some,
        s.surrounds(region, v),
        0 <= k < 4,
        region.x - 6 <= x < region.x + region.w + 6,
        region.y - 6 <= y < region.y + region.h + 6,
        0 <= x < s.columns(),
        0 <= y < s.rows(),
    ensures
        v.frame.x <= x < v.frame.x + v.frame.w,
        v.frame.y <= y < v.frame.y + v.frame.h,
        ({
            let (w, h, o) = (s.columns(), s.rows(), s.offset().unwrap());
            let at = 4 * ((y - v.frame.y) * v.frame.w + (x - v.frame.x)) + k;
            &&& v.dest@[at] == s.untouched()[4 * (y * w + x) + k]
            &&& v.source@[at] == (if 0 <= x + o.0 < w && 0 <= y + o.1 < h {
                s.untouched()[4 * ((y + o.1) * w + (x + o.0)) + k]
            } else {
                0
            })
        }),
{
    assert(v.frame.has(x, y));
    let (w, h, o) = (s.columns(), s.rows(), s.offset().unwrap());
    let (i, j) = (x - v.frame.x, y - v.frame.y);
    a_shifted_window_is_the_base_at_the_offset(s.untouched(), w, h, v.frame, 0, 0, i, j, k);
    a_shifted_window_is_the_base_at_the_offset(
        s.untouched(),
        w,
        h,
        v.frame,
        o.0 as int,
        o.1 as int,
        i,
        j,
        k,
    );
}

/// Sanitized numbers are in range: a tip between half a pixel and 2048 pixels
/// across, a spacing between a hundredth of a diameter and four diameters, and
/// hardness, opacity, flow and colour between zero and one. A number that was in
/// range is kept, but for the flow of a pencil, which is full.
pub proof fn sanitized_numbers_are_in_range(raw: StrokeParams, sane: StrokeParams)
    requires
        sanitizes(raw, sane),
    ensures
        sane.tool == raw.tool && sane.blend == raw.blend && sane.pressure == raw.pressure,
        sane.size.nan() || 0x3f00_0000 <= sane.size.rank() <= 0x4500_0000,
        0x3f00_0000 <= raw.size.rank() <= 0x4500_0000 ==> sane.size == raw.size,
        sane.spacing.nan() || 0x3c23_d70a <= sane.spacing.rank() <= 0x4080_0000,
        0x3c23_d70a <= raw.spacing.rank() <= 0x4080_0000 ==> sane.spacing == raw.spacing,
        sane.hardness.nan() || 0 <= sane.hardness.rank() <= 0x3f80_0000,
        0 <= raw.hardness.rank() <= 0x3f80_0000 ==> sane.hardness == raw.hardness,
        sane.opacity.nan() || 0 <= sane.opacity.rank() <= 0x3f80_0000,
        0 <= raw.opacity.rank() <= 0x3f80_0000 ==> sane.opacity == raw.opacity,
        sane.flow.nan() || 0 <= sane.flow.rank() <= 0x3f80_0000,
        raw.tool is Pencil ==> sane.flow.rank() == 0x3f80_0000,
        !(raw.tool is Pencil) && 0 <= raw.flow.rank() <= 0x3f80_0000 ==> sane.flow == raw.flow,
        forall|i: int|
            0 <= i < 4 ==> (#[trigger] sane.color@[i]).nan() || 0 <= sane.color@[i].rank()
                <= 0x3f80_0000,
        forall|i: int|
            0 <= i < 4 && 0 <= raw.color@[i].rank() <= 0x3f80_0000 ==> #[trigger] sane.color@[i]
                == raw.color@[i],
{
}

/// A cloning stroke reads at its anchor: where the offset of two whole places is
/// the one less the other, what is read for the pixel of the first sample is the
/// base pixel at the anchor, and any other pixel is read as far from the anchor as
/// it is from that sample.
pub proof fn a_clone_reads_at_its_anchor<F: Fn(Scalar, Scalar) -> i64>(
    before: StrokeSession,
    after: StrokeSession,
    sample: StrokeSample,
    offset_of: F,
    ax: int,
    ay: int,
    sx: int,
    sy: int,
    region: Region,
    x: int,
    y: int,
    k: int,
)
    requires
        after.wf(),
        after.same_stroke(before),
        after.settles(before, sample, offset_of),
        before.anchor() is Some,
        before.offset() is None,
        before.frozen().tool is Clone || before.frozen().tool is Heal,
        sample.x.finite(),
        sample.y.finite(),
        forall|o: i64| #[trigger]
            offset_of.ensures((before.anchor().unwrap().x, sample.x), o) ==> o == ax - sx,
        forall|o: i64| #[trigger]
            offset_of.ensures((before.anchor().unwrap().y, sample.y), o) ==> o == ay - sy,
        region.x <= x < region.x + region.w,
        region.y <= y < region.y + region.h,
        0 <= k < 4,
    ensures
        after.offset() is Some,
        ({
            let (w, h) = (before.columns(), before.rows());
            let o = after.offset().unwrap();
            let source = shifted_window(
                before.untouched(),
                w as int,
                h as int,
                region,
                o.0 as int,
                o.1 as int,
            );
            let (u, v) = (ax + (x - sx), ay + (y - sy));
            source[4 * ((y - region.y) * region.w + (x - region.x)) + k] == (if 0 <= u < w && 0 <= v
                < h {
                before.untouched()[4 * (v * w + u) + k]
            } else {
                0
            })
        }),
{
    let o = after.offset().unwrap();
    a_shifted_window_is_the_base_at_the_offset(
        before.untouched(),
        before.columns(),
        before.rows(),
        region,
        o.0 as int,
        o.1 as int,
        x - region.x,
        y - region.y,
        k,
    );
}

/// The offset of a stroke is fixed: once it is set, no sample changes it, and a
/// stroke that does not sample the image never has one.
pub proof fn an_offset_is_kept_for_the_stroke<F: Fn(Scalar, Scalar) -> i64>(
    before: StrokeSession,
    after: StrokeSession,
    sample: StrokeSample,
    offset_of: F,
)
    requires
        after.settles(before, sample, offset_of),
        before.offset() is Some || before.anchor() is None || before.frozen().tool is Brush
            || before.frozen().tool is Pencil || before.frozen().tool is Eraser,
    ensures
        after.offset() == before.offset(),
{
}

/// A composite is made of the base: over the part of the dirty region that lies on
/// the canvas, its backdrop is the unpainted pixel of each place, however much was
/// painted there before, and a sampling tool lays down the base pixel that lies the
/// offset away from it, transparent off the canvas. Both are working windows.
pub proof fn a_composite_is_made_of_the_base(
    s: StrokeSession,
    dirty: Region,
    c: StrokeComposite,
    backdrop: Seq<u8>,
    source: Seq<u8>,
    x: int,
    y: int,
    k: int,
)
    requires
        s.wf(),
        s.composes(dirty, Some(c)),
        backdrop.len() == 4 * (c.region.w * c.region.h),
        c.base@ == crate::bridge::widened(backdrop),
        source.len() == 4 * (c.region.w * c.region.h),
        c.paint matches StrokePaint::Sample { source: v, .. } ==> v@ == crate::bridge::widened(source),
        0 <= x < s.columns(),
        0 <= y < s.rows(),
        dirty.x <= x < dirty.x + dirty.w,
        dirty.y <= y < dirty.y + dirty.h,
        0 <= k < 4,
    ensures
        c.region.x <= x < c.region.x + c.region.w,
        c.region.y <= y < c.region.y + c.region.h,
        ({
            let (w, h) = (s.columns(), s.rows());
            let at = 4 * ((y - c.region.y) * c.region.w + (x - c.region.x)) + k;
            &&& backdrop[at] == s.untouched()[4 * (y * w + x) + k]
            &&& c.paint is Sample ==> s.offset() is Some && source[at] == (if 0 <= x
                + s.offset().unwrap().0 < w && 0 <= y + s.offset().unwrap().1 < h {
                s.untouched()[4 * ((y + s.offset().unwrap().1) * w + (x + s.offset().unwrap().0))
                    + k]
            } else {
                0
            })
        }),
{
    let (w, h) = (s.columns(), s.rows());
    let r = c.region;
    assert(dirty.has(x, y));
    assert(r.has(x, y));
    let (i, j) = (x - r.x, y - r.y);
    a_shifted_window_is_the_base_at_the_offset(s.untouched(), w, h, r, 0, 0, i, j, k);
    let plain = shifted_window(s.untouched(), w as int, h as int, r, 0, 0);
    crate::bridge::window_round_trip(backdrop);
    crate::bridge::window_round_trip(plain);
    if c.paint is Sample {
        let o = s.offset().unwrap();
        let moved = shifted_window(s.untouched(), w as int, h as int, r, o.0 as int, o.1 as int);
        a_shifted_window_is_the_base_at_the_offset(
            s.untouched(),
            w,
            h,
            r,
            o.0 as int,
            o.1 as int,
            i,
            j,
            k,
        );
        crate::bridge::window_round_trip(source);
        crate::bridge::window_round_trip(moved);
    }
}

/// A path is painted end to end: a segment leads from the sample before to the new
/// one, and the next one starts from there.
pub proof fn a_path_is_painted_end_to_end(
    a: StrokeSession,
    b: StrokeSession,
    c: StrokeSession,
    first: StrokeSample,
    second: StrokeSample,
    one: SampleAction,
    two: SampleAction,
)
    requires
        b.takes(a, first, one),
        c.takes(b, second, two),
        first.x.finite() && first.y.finite(),
        second.x.finite() && second.y.finite(),
    ensures
        two matches SampleAction::Segment { from, to } && from == first && to == second,
        a.previous() is None ==> (one matches SampleAction::Dot { at } && at == first),
        a.previous() matches Some(p) ==> (one matches SampleAction::Segment { from, to } && from == p
            && to == first),
{
}

/// The pressure drives what its target says and nothing else: off, a dab has the full
/// size and flow of its brush; on the size alone, the flow stays full, and the other
/// way round. The hardness is the brush's own, and only a pencil's edge is not
/// smoothed.
pub proof fn a_pressure_drives_its_target_alone<
    F: Fn(Scalar) -> Scalar,
    P: Fn(Scalar, Scalar) -> Scalar,
>(
    p: StrokeParams,
    pressure: Scalar,
    share: F,
    product: P,
    tip: BrushTip,
    flow: Scalar,
    part: Scalar,
    size_by: Scalar,
    flow_by: Scalar,
)
    requires
        size_by == (if p.pressure is Size || p.pressure is Both {
            part
        } else {
            Scalar { bits: 0x3f80_0000 }
        }),
        flow_by == (if p.pressure is Opacity || p.pressure is Both {
            part
        } else {
            Scalar { bits: 0x3f80_0000 }
        }),
        p.tips(pressure, share, product, tip),
        p.flows(pressure, share, product, flow),
        forall|r: Scalar| #[trigger] share.ensures((pressure,), r) ==> r == part,
    ensures
        product.ensures((p.flow, flow_by), flow),
        exists|d: Scalar| #[trigger]
            product.ensures((p.size, size_by), d) && (!d.nan() && d.rank() > 0 ==> tip.diameter == d)
                && (d.nan() || d.rank() <= 0 ==> tip.diameter.bits == 0),
        tip.hardness == p.hardness,
        tip.antialias <==> !(p.tool is Pencil),
{
    let (scale, d) = choose|scale: Scalar, d: Scalar| #[trigger]
        product.ensures((p.size, scale), d) && scales(
            p.pressure.drives_size(),
            pressure,
            share,
            scale,
        ) && tip.diameter == (if crate::scalar::zero().below(d) {
            d
        } else {
            crate::scalar::zero()
        });
    assert(product.ensures((p.size, scale), d));
}

/// Off the stroke a correction is what the base differs from its source by: at a pixel
/// that the stroke does not cover, and whose source has any alpha, each colour of the
/// correction is the difference of the base there from the base at the offset.
pub proof fn a_correction_is_the_difference_off_the_stroke<
    C: Fn(u32, u32) -> bool,
    D: Fn(u8, u8) -> Scalar,
    M: Fn(&Vec<Scalar>) -> Scalar,
    A: Fn(Scalar, Scalar, Scalar, Scalar) -> Scalar,
    H: Fn(Scalar) -> u16,
>(
    s: StrokeSession,
    region: Region,
    covered: C,
    difference: D,
    mean: M,
    average: A,
    half: H,
    out: Seq<u8>,
    x: u32,
    y: u32,
    ch: int,
) -> (d: Scalar)
    requires
        s.wf(),
        s.offset() is Some,
        s.corrected(region, covered, difference, mean, average, half, out),
        region.x <= x < region.x + region.w,
        region.y <= y < region.y + region.h,
        x < s.columns(),
        y < s.rows(),
        0 <= ch < 3,
        !covered.ensures((x, y), true),
        ({
            let (w, h, o) = (s.columns(), s.rows(), s.offset().unwrap());
            &&& 0 <= x + o.0 < w
            &&& 0 <= y + o.1 < h
            &&& s.untouched()[4 * ((y + o.1) * w + (x + o.0)) + 3] != 0
        }),
    ensures
        ({
            let (w, o) = (s.columns(), s.offset().unwrap());
            let at = 8 * ((y - region.y) * region.w + (x - region.x)) + 2 * ch;
            &&& difference.ensures(
                (
                    s.untouched()[4 * (y * w + x) + ch],
                    s.untouched()[4 * ((y + o.1) * w + (x + o.0)) + ch],
                ),
                d,
            )
            &&& half.ensures((d,), (out[at] + 256 * out[at + 1]) as u16)
        }),
{
    let (v, cells, field) = choose|v: HealWindow, cells: Seq<u8>, field: Seq<Scalar>| #[trigger]
        s.corrects(region, covered, difference, mean, average, half, v, cells, field, out);
    let (fw, fh) = (v.frame.w as int, v.frame.h as int);
    a_heal_window_pairs_the_base_with_its_source(s, region, v, x as int, y as int, ch);
    a_heal_window_pairs_the_base_with_its_source(s, region, v, x as int, y as int, 3);
    a_footprint_is_where_the_stroke_covers(covered, v.frame, cells, x, y);
    let at = (y - v.frame.y) * fw + (x - v.frame.x);
    crate::grid::lemma_pixel_index(x - v.frame.x, y - v.frame.y, fw, fh);
    crate::heal::the_correction_meets_the_boundary(
        difference,
        mean,
        average,
        v.dest@,
        v.source@,
        cells,
        fw,
        fh,
        field,
        at,
        ch,
    );
    a_crop_keeps_each_pixels_own_correction(field, v.frame, region, x as int, y as int, ch);
    let q = (y - region.y) * region.w + (x - region.x);
    crate::grid::lemma_pixel_index(
        x - region.x,
        y - region.y,
        region.w as int,
        region.h as int,
    );
    crate::heal::a_packed_correction_reads_back(
        half,
        cropped_field(field, v.frame, region),
        region.w * region.h,
        out,
        q,
    );
    field[3 * at + ch]
}

} // verus!
