//! Wire decoding and readouts: the arguments a caller sends, turned into the
//! parameters of the library or refused with a sentence, and the lists that a
//! panel reads back as JSON.
use crate::adjust::{AdjustParams, LevelsParams};
use crate::blend::{blend_kernel, BlendMode};
use crate::fill::{FillSpec, GradientKind};
use crate::layers::{HistoryStats, Layer, LayerStack};
use crate::saveback::RasterFormat;
use crate::scalar::{Scalar, ZERO};
use crate::selection::CombineMode;
use crate::strings::{
    push_bool, push_decimal, push_json_list, push_json_string, push_len, same_text,
};
use crate::stroke::{PressureTarget, StrokeParams, StrokeTool};
use vstd::prelude::*;

verus! {

// ── crop chrome ──

/// The aspect ratio that a crop frame is held to.
#[derive(Debug, Clone, Copy, PartialEq, Eq, Structural)]
pub enum AspectLock {
    Free,
    Ratio(Scalar, Scalar),
}

/// Whether a number is zero or below.
pub open spec fn not_positive(s: Scalar) -> bool {
    s.below(crate::scalar::zero()) || s.equals(crate::scalar::zero())
}

/// Decode an aspect lock: free where either side is not positive, and the ratio
/// otherwise.
pub fn decode_aspect(aspect_w: Scalar, aspect_h: Scalar) -> (lock: AspectLock)
    ensures
        lock == (if not_positive(aspect_w) || not_positive(aspect_h) {
            AspectLock::Free
        } else {
            AspectLock::Ratio(aspect_w, aspect_h)
        }),
{
    let z: Scalar = Scalar { bits: ZERO };
    if aspect_w.lt(z) || aspect_w.same(z) || aspect_h.lt(z) || aspect_h.same(z) {
        AspectLock::Free
    } else {
        AspectLock::Ratio(aspect_w, aspect_h)
    }
}

/// A grip of the crop frame, clockwise from its top left, or its body.
#[derive(Debug, Clone, Copy, PartialEq, Eq, Structural)]
pub enum CropHandle {
    TopLeft,
    Top,
    TopRight,
    Right,
    BottomRight,
    Bottom,
    BottomLeft,
    Left,
    Move,
}

impl CropHandle {
    /// The grip's number on the wire.
    pub open spec fn number(self) -> i32 {
        match self {
            CropHandle::TopLeft => 0,
            CropHandle::Top => 1,
            CropHandle::TopRight => 2,
            CropHandle::Right => 3,
            CropHandle::BottomRight => 4,
            CropHandle::Bottom => 5,
            CropHandle::BottomLeft => 6,
            CropHandle::Left => 7,
            CropHandle::Move => 8,
        }
    }

    pub fn code(self) -> (code: i32)
        ensures
            code == self.number(),
    {
        match self {
            CropHandle::TopLeft => 0,
            CropHandle::Top => 1,
            CropHandle::TopRight => 2,
            CropHandle::Right => 3,
            CropHandle::BottomRight => 4,
            CropHandle::Bottom => 5,
            CropHandle::BottomLeft => 6,
            CropHandle::Left => 7,
            CropHandle::Move => 8,
        }
    }

    /// The grip of a number; none has any other.
    pub fn from_code(code: i32) -> (handle: Option<CropHandle>)
        ensures
            handle matches Some(h) ==> h.number() == code,
            handle is None <==> code < 0 || code > 8,
            forall|h: CropHandle| #[trigger] h.number() == code ==> handle == Some(h),
    {
        if code == 0 {
            Some(CropHandle::TopLeft)
        } else if code == 1 {
            Some(CropHandle::Top)
        } else if code == 2 {
            Some(CropHandle::TopRight)
        } else if code == 3 {
            Some(CropHandle::Right)
        } else if code == 4 {
            Some(CropHandle::BottomRight)
        } else if code == 5 {
            Some(CropHandle::Bottom)
        } else if code == 6 {
            Some(CropHandle::BottomLeft)
        } else if code == 7 {
            Some(CropHandle::Left)
        } else if code == 8 {
            Some(CropHandle::Move)
        } else {
            None
        }
    }
}

/// What a hit test answers: the grip's number, or -1 for a miss.
pub fn hit_code(hit: Option<CropHandle>) -> (code: i32)
    ensures
        code == (match hit {
            Some(h) => h.number(),
            None => -1i32,
        }),
{
    match hit {
        Some(h) => h.code(),
        None => -1,
    }
}

// ── shapes ──

/// The pairs of a flat list; an odd last number has no partner and is left out.
pub open spec fn pairs(flat: Seq<Scalar>) -> Seq<(Scalar, Scalar)> {
    Seq::new(flat.len() / 2, |i: int| (flat[2 * i], flat[2 * i + 1]))
}

/// Pair the numbers of a flat list.
pub fn pair_up(flat: &[Scalar]) -> (out: Vec<(Scalar, Scalar)>)
    ensures
        out@ == pairs(flat@),
{
    let len: usize = flat.len();
    let n: usize = len / 2;
    let mut out: Vec<(Scalar, Scalar)> = Vec::new();
    let mut i: usize = 0;
    while i < n
        invariant
            len == flat@.len(),
            n == len / 2,
            i <= n,
            out@ == pairs(flat@).take(i as int),
        decreases n - i,
    {
        out.push((flat[2 * i], flat[2 * i + 1]));
        i = i + 1;
        proof {
            assert(out@ =~= pairs(flat@).take(i as int));
        }
    }
    proof {
        assert(out@ =~= pairs(flat@));
    }
    out
}

/// The vertices of a lasso polygon, from a flat list. Fewer than three, or a
/// half one, is an error.
pub fn polygon_points(flat: &[Scalar]) -> (points: Result<Vec<(Scalar, Scalar)>, String>)
    ensures
        points is Ok <==> flat@.len() >= 6 && flat@.len() % 2 == 0,
        points matches Ok(p) ==> p@ == pairs(flat@),
        points matches Err(e) ==> e@
            == "polygon needs ≥ 3 (x, y) vertex pairs (flat, even length)"@,
{
    if flat.len() < 6 || flat.len() % 2 != 0 {
        return Err("polygon needs ≥ 3 (x, y) vertex pairs (flat, even length)".to_owned());
    }
    Ok(pair_up(flat))
}

impl CombineMode {
    /// The mode's number on the wire.
    pub open spec fn number(self) -> u32 {
        match self {
            CombineMode::Replace => 0,
            CombineMode::Add => 1,
            CombineMode::Subtract => 2,
            CombineMode::Intersect => 3,
        }
    }
}

/// Decode how a shape is to be folded into the selection.
pub fn decode_mode(mode: u32) -> (decoded: Result<CombineMode, String>)
    ensures
        decoded matches Ok(m) ==> m.number() == mode,
        decoded is Ok <==> mode < 4,
        decoded matches Err(e) ==> e@ == "unknown selection mode "@ + crate::strings::decimal(
            mode as nat,
        ) + " (0 replace | 1 add | 2 subtract | 3 intersect)"@,
{
    if mode == 0 {
        Ok(CombineMode::Replace)
    } else if mode == 1 {
        Ok(CombineMode::Add)
    } else if mode == 2 {
        Ok(CombineMode::Subtract)
    } else if mode == 3 {
        Ok(CombineMode::Intersect)
    } else {
        let mut text: String = "unknown selection mode ".to_owned();
        push_decimal(&mut text, mode as u128);
        text.append(" (0 replace | 1 add | 2 subtract | 3 intersect)");
        Err(text)
    }
}

// ── resampling ──

/// The filter that a resize runs.
#[derive(Debug, Clone, Copy, PartialEq, Eq, Structural)]
pub enum ResampleFilter {
    Nearest,
    Mitchell,
    Lanczos3,
}

/// The filter of a name.
pub open spec fn filter_named(s: Seq<char>) -> Option<ResampleFilter> {
    if s == "nearest"@ {
        Some(ResampleFilter::Nearest)
    } else if s == "mitchell"@ {
        Some(ResampleFilter::Mitchell)
    } else if s == "lanczos3"@ {
        Some(ResampleFilter::Lanczos3)
    } else {
        None
    }
}

/// A name between quotes, before and after a sentence.
pub open spec fn quoted(before: Seq<char>, name: Seq<char>, after: Seq<char>) -> Seq<char> {
    before + "\""@ + name + "\""@ + after
}

/// A sentence that quotes a name.
pub fn quoted_text(before: &str, name: &str, after: &str) -> (text: String)
    ensures
        text@ == quoted(before@, name@, after@),
{
    let mut text: String = before.to_owned();
    text.append("\"");
    text.append(name);
    text.append("\"");
    text.append(after);
    text
}

/// Decode the name of a resample filter.
pub fn decode_filter(name: &str) -> (filter: Result<ResampleFilter, String>)
    ensures
        match filter {
            Ok(f) => filter_named(name@) == Some(f),
            Err(e) => filter_named(name@) is None && e@ == quoted(
                "unknown resample filter "@,
                name@,
                " (nearest | mitchell | lanczos3)"@,
            ),
        },
{
    if same_text(name, "nearest") {
        Ok(ResampleFilter::Nearest)
    } else if same_text(name, "mitchell") {
        Ok(ResampleFilter::Mitchell)
    } else if same_text(name, "lanczos3") {
        Ok(ResampleFilter::Lanczos3)
    } else {
        Err(quoted_text("unknown resample filter ", name, " (nearest | mitchell | lanczos3)"))
    }
}

/// Decode the name of an encoding.
pub fn decode_format(name: &str) -> (format: Result<RasterFormat, String>)
    ensures
        match format {
            Ok(f) => crate::saveback::raster_named(name@) == Some(f),
            Err(e) => crate::saveback::raster_named(name@) is None && e@ == quoted(
                "unknown encode format "@,
                name@,
                ""@,
            ),
        },
{
    match RasterFormat::from_wire(name) {
        Some(f) => Ok(f),
        None => Err(quoted_text("unknown encode format ", name, "")),
    }
}

// ── fills ──

/// The first four of a list.
pub open spec fn four(list: Seq<Scalar>) -> Seq<Scalar> {
    seq![list[0], list[1], list[2], list[3]]
}

fn four_of(list: &[Scalar]) -> (color: [Scalar; 4])
    requires
        list@.len() == 4,
    ensures
        color@ == four(list@),
{
    let color: [Scalar; 4] = [list[0], list[1], list[2], list[3]];
    proof {
        assert(color@ =~= four(list@));
    }
    color
}

/// Whether a gradient's wire decodes to this.
pub open spec fn decodes_gradient(
    kind: Seq<char>,
    c0: Seq<Scalar>,
    c1: Seq<Scalar>,
    spec_of: Result<FillSpec, String>,
) -> bool {
    &&& (spec_of is Ok <==> (exists|k: GradientKind| #[trigger] k.wire() == kind) && c0.len() == 4
        && c1.len() == 4)
    &&& (spec_of matches Ok(s) ==> {
        &&& s matches FillSpec::Gradient { kind: k, c0: a, c1: b }
        &&& k.wire() == kind
        &&& a@ == four(c0)
        &&& b@ == four(c1)
    })
    &&& (spec_of matches Err(e) ==> e@ == (if !(exists|k: GradientKind| #[trigger]
        k.wire() == kind) {
        quoted(
            "unknown gradient kind "@,
            kind,
            " (linear | radial | angular | reflected | diamond)"@,
        )
    } else {
        "gradient stops must be 4 floats each (straight RGBA in [0,1])"@
    }))
}

/// Decode a gradient: its kind by name, its stops as four numbers each.
pub fn gradient_spec(kind: &str, c0: &[Scalar], c1: &[Scalar]) -> (spec_of: Result<FillSpec, String>)
    ensures
        decodes_gradient(kind@, c0@, c1@, spec_of),
{
    let kind_of: GradientKind = match GradientKind::from_wire(kind) {
        Some(k) => k,
        None => {
            return Err(
                quoted_text(
                    "unknown gradient kind ",
                    kind,
                    " (linear | radial | angular | reflected | diamond)",
                ),
            );
        },
    };
    proof {
        assert(kind_of.wire() == kind@);
    }
    if c0.len() != 4 || c1.len() != 4 {
        return Err("gradient stops must be 4 floats each (straight RGBA in [0,1])".to_owned());
    }
    Ok(FillSpec::Gradient { kind: kind_of, c0: four_of(c0), c1: four_of(c1) })
}

// ── adjustments ──

/// The sentence for a tone table of another size.
pub open spec fn bad_curve(len: nat) -> Seq<char> {
    "curve_lut must be 256 bytes or empty (got "@ + crate::strings::decimal(len) + ")"@
}

/// A tone table: 256 bytes, or none.
pub fn curve_table(bytes: &[u8]) -> (table: Result<Option<[u8; 256]>, String>)
    ensures
        table is Ok <==> bytes@.len() == 256 || bytes@.len() == 0,
        table matches Ok(t) ==> match t {
            Some(lut) => lut@ == bytes@ && bytes@.len() == 256,
            None => bytes@.len() == 0,
        },
        table matches Err(e) ==> e@ == bad_curve(bytes@.len()),
{
    if bytes.len() == 256 {
        let mut lut: [u8; 256] = [0; 256];
        let mut i: usize = 0;
        while i < 256
            invariant
                bytes@.len() == 256,
                i <= 256,
                forall|j: int| 0 <= j < i ==> #[trigger] lut@[j] == bytes@[j],
            decreases 256 - i,
        {
            lut[i] = bytes[i];
            i = i + 1;
        }
        proof {
            assert(lut@ =~= bytes@);
        }
        Ok(Some(lut))
    } else if bytes.len() == 0 {
        Ok(None)
    } else {
        let mut text: String = "curve_lut must be 256 bytes or empty (got ".to_owned();
        push_len(&mut text, bytes.len());
        text.append(")");
        Err(text)
    }
}

/// The scalars of an adjustment that travel one by one.
#[derive(Debug, Clone, Copy)]
pub struct AdjustWire {
    pub exposure_ev: Scalar,
    pub brightness: Scalar,
    pub contrast: Scalar,
    pub saturation: Scalar,
    pub temp: Scalar,
    pub tint: Scalar,
    pub levels: LevelsParams,
    pub blur_sigma: Scalar,
    pub sharpen_amount: Scalar,
    pub hue_degrees: Scalar,
    pub invert: bool,
}

/// Whether the scalars of an adjustment arrived.
pub open spec fn carries(w: AdjustWire, p: AdjustParams) -> bool {
    &&& p.exposure_ev == w.exposure_ev
    &&& p.brightness == w.brightness
    &&& p.contrast == w.contrast
    &&& p.saturation == w.saturation
    &&& p.temp == w.temp
    &&& p.tint == w.tint
    &&& p.levels == w.levels
    &&& p.blur_sigma == w.blur_sigma
    &&& p.sharpen_amount == w.sharpen_amount
    &&& p.hue_degrees == w.hue_degrees
    &&& p.invert == w.invert
}

/// Whether the parameters of the extended block are those a panel starts from.
pub open spec fn extended_preset(p: AdjustParams) -> bool {
    &&& p.vibrance == crate::scalar::zero()
    &&& p.color_balance.preset()
    &&& p.black_white.preset()
    &&& p.posterize is None
    &&& p.threshold is None
    &&& p.photo_filter.preset()
    &&& p.channel_mixer.preset()
    &&& p.levels_rgb.preset()
}

/// Decode an adjustment. The preview and the bake share this, so that they
/// cannot read one wire in two ways.
pub fn build_adjust_params(wire: AdjustWire, curve_lut: &[u8], ext: &[Scalar]) -> (params: Result<
    AdjustParams,
    String,
>)
    ensures
        params is Ok <==> (curve_lut@.len() == 256 || curve_lut@.len() == 0) && (ext@.len() == 0
            || ext@.len() == crate::adjust::ADJUST_EXT_LEN),
        params matches Ok(p) ==> {
            &&& carries(wire, p)
            &&& match p.curve_lut {
                Some(lut) => lut@ == curve_lut@,
                None => curve_lut@.len() == 0,
            }
            &&& ext@.len() == 0 ==> extended_preset(p)
            &&& ext@.len() > 0 ==> exists|before: AdjustParams| #[trigger]
                crate::adjust::extends(before, ext@, p)
        },
        params matches Err(e) ==> e@ == (if curve_lut@.len() != 256 && curve_lut@.len() != 0 {
            bad_curve(curve_lut@.len())
        } else {
            "unsupported: "@
                + "extended adjust block must be 47 f32s or empty (got "@
                + crate::strings::decimal(ext@.len()) + ")"@
        }),
{
    let lut: Option<[u8; 256]> = match curve_table(curve_lut) {
        Ok(t) => t,
        Err(e) => {
            return Err(e);
        },
    };
    let mut params: AdjustParams = AdjustParams::default();
    params.exposure_ev = wire.exposure_ev;
    params.brightness = wire.brightness;
    params.contrast = wire.contrast;
    params.saturation = wire.saturation;
    params.temp = wire.temp;
    params.tint = wire.tint;
    params.levels = wire.levels;
    params.curve_lut = lut;
    params.blur_sigma = wire.blur_sigma;
    params.sharpen_amount = wire.sharpen_amount;
    params.hue_degrees = wire.hue_degrees;
    params.invert = wire.invert;
    let ghost before = params;
    match params.apply_extended(ext) {
        Ok(()) => {
            proof {
                if ext@.len() > 0 {
                    assert(crate::adjust::extends(before, ext@, params));
                }
            }
            Ok(params)
        },
        Err(e) => Err(e.to_text()),
    }
}

// ── strokes ──

impl PressureTarget {
    /// The target's wire name.
    pub open spec fn wire(self) -> Seq<char> {
        match self {
            PressureTarget::Off => "none"@,
            PressureTarget::Size => "size"@,
            PressureTarget::Opacity => "opacity"@,
            PressureTarget::Both => "both"@,
        }
    }

    /// Decode the wire name.
    pub fn from_wire(s: &str) -> (target: Option<PressureTarget>)
        ensures
            target matches Some(t) ==> t.wire() == s@,
            target is None ==> forall|t: PressureTarget| #[trigger] t.wire() != s@,
    {
        let target: Option<PressureTarget> = if same_text(s, "none") {
            Some(PressureTarget::Off)
        } else if same_text(s, "size") {
            Some(PressureTarget::Size)
        } else if same_text(s, "opacity") {
            Some(PressureTarget::Opacity)
        } else if same_text(s, "both") {
            Some(PressureTarget::Both)
        } else {
            None
        };
        proof {
            if let Some(t) = target {
                assert(t.wire() == s@);
            }
        }
        target
    }
}

/// What is wrong with a stroke's wire, if anything, in the order it is tested.
pub open spec fn stroke_refusal(
    tool: Seq<char>,
    blend: Seq<char>,
    colors: nat,
    pressure: Seq<char>,
) -> Option<Seq<char>> {
    if forall|t: StrokeTool| #[trigger] t.wire() != tool {
        Some(quoted("unknown paint tool "@, tool, " (brush | pencil | eraser)"@))
    } else if forall|b: BlendMode| !(#[trigger] b.named_by(blend)) {
        Some(quoted("unknown blend mode "@, blend, " (a compose.* kernel name)"@))
    } else if forall|p: PressureTarget| #[trigger] p.wire() != pressure {
        Some(quoted("unknown pressure target "@, pressure, " (none | size | opacity | both)"@))
    } else if colors != 4 {
        Some("brush colour must be 4 floats (straight RGBA in [0,1])"@)
    } else {
        None
    }
}

/// The numbers of a stroke that travel one by one.
#[derive(Debug, Clone, Copy)]
pub struct StrokeWire {
    pub size: Scalar,
    pub hardness: Scalar,
    pub opacity: Scalar,
    pub flow: Scalar,
    pub spacing: Scalar,
}

/// Whether the wire of a stroke decodes to these parameters.
pub open spec fn decodes_stroke(
    tool: Seq<char>,
    wire: StrokeWire,
    blend: Seq<char>,
    color: Seq<Scalar>,
    pressure_target: Seq<char>,
    params: Result<StrokeParams, String>,
) -> bool {
    match params {
        Ok(p) => {
            &&& stroke_refusal(tool, blend, color.len(), pressure_target) is None
            &&& p.tool.wire() == tool
            &&& p.size == wire.size
            &&& p.hardness == wire.hardness
            &&& p.opacity == wire.opacity
            &&& p.flow == wire.flow
            &&& p.spacing == wire.spacing
            &&& p.blend.named_by(blend)
            &&& p.color@ == four(color)
            &&& p.pressure.wire() == pressure_target
        },
        Err(e) => stroke_refusal(tool, blend, color.len(), pressure_target) == Some(e@),
    }
}

/// Decode the parameters of a stroke.
pub fn stroke_params(
    tool: &str,
    wire: StrokeWire,
    blend: &str,
    color: &[Scalar],
    pressure_target: &str,
) -> (params: Result<StrokeParams, String>)
    ensures
        decodes_stroke(tool@, wire, blend@, color@, pressure_target@, params),
{
    let tool_of: StrokeTool = match StrokeTool::from_wire(tool) {
        Some(t) => t,
        None => {
            return Err(
                quoted_text(
                    "unknown paint tool ",
                    tool,
                    " (brush | pencil | eraser)",
                ),
            );
        },
    };
    proof {
        assert(tool_of.wire() == tool@);
    }
    let mode: BlendMode = match blend_kernel(blend) {
        Some(b) => b,
        None => {
            return Err(quoted_text("unknown blend mode ", blend, " (a compose.* kernel name)"));
        },
    };
    proof {
        assert(mode.named_by(blend@));
    }
    let pressure: PressureTarget = match PressureTarget::from_wire(pressure_target) {
        Some(p) => p,
        None => {
            return Err(
                quoted_text(
                    "unknown pressure target ",
                    pressure_target,
                    " (none | size | opacity | both)",
                ),
            );
        },
    };
    proof {
        assert(pressure.wire() == pressure_target@);
    }
    if color.len() != 4 {
        return Err("brush colour must be 4 floats (straight RGBA in [0,1])".to_owned());
    }
    Ok(
        StrokeParams {
            tool: tool_of,
            size: wire.size,
            hardness: wire.hardness,
            opacity: wire.opacity,
            flow: wire.flow,
            spacing: wire.spacing,
            blend: mode,
            color: four_of(color),
            pressure,
        },
    )
}

// ── readouts ──

/// A signed decimal numeral.
pub open spec fn signed(n: int) -> Seq<char> {
    if n < 0 {
        "-"@ + crate::strings::decimal((-n) as nat)
    } else {
        crate::strings::decimal(n as nat)
    }
}

fn push_signed(out: &mut String, n: i32)
    ensures
        final(out)@ == old(out)@ + signed(n as int),
{
    let ghost before = out@;
    if n < 0 {
        out.append("-");
        push_decimal(out, (-(n as i64)) as u128);
    } else {
        push_decimal(out, n as u128);
    }
    proof {
        assert(out@ =~= before + signed(n as int));
    }
}

/// A layer record of a layered file, as its readout needs it.
#[derive(Debug)]
pub struct PsdRecord {
    pub name: String,
    pub opacity: u8,
    pub flags: u8,
    pub top: i32,
    pub left: i32,
    pub bottom: i32,
    pub right: i32,
}

impl PsdRecord {
    /// Whether the record is hidden: its second flag bit.
    pub open spec fn hidden(self) -> bool {
        self.flags / 2 % 2 == 1
    }
}

/// The first half of a record: what it is.
pub open spec fn record_head(index: nat, r: PsdRecord) -> Seq<char> {
    "{\"index\":"@ + crate::strings::decimal(index) + ",\"name\":"@ + crate::strings::json_text(
        r.name@,
    ) + ",\"opacity\":"@ + crate::strings::decimal(r.opacity as nat) + ",\"hidden\":"@
        + crate::strings::bool_text(r.hidden())
}

/// The second half of a record: where it is.
pub open spec fn record_tail(r: PsdRecord) -> Seq<char> {
    ",\"top\":"@ + signed(r.top as int) + ",\"left\":"@ + signed(r.left as int) + ",\"bottom\":"@
        + signed(r.bottom as int) + ",\"right\":"@ + signed(r.right as int) + "}"@
}

/// The first `n` records as JSON objects, with commas between them.
pub open spec fn records_text(list: Seq<PsdRecord>, n: nat) -> Seq<char>
    decreases n,
{
    if n == 0 {
        Seq::empty()
    } else {
        records_text(list, (n - 1) as nat) + crate::strings::separator(n) + (record_head(
            (n - 1) as nat,
            list[n - 1],
        ) + record_tail(list[n - 1]))
    }
}

fn push_record_head(out: &mut String, index: usize, r: &PsdRecord)
    ensures
        final(out)@ == old(out)@ + record_head(index as nat, *r),
{
    let ghost before = out@;
    out.append("{\"index\":");
    push_len(out, index);
    out.append(",\"name\":");
    push_json_string(out, r.name.as_str());
    out.append(",\"opacity\":");
    push_decimal(out, r.opacity as u128);
    out.append(",\"hidden\":");
    push_bool(out, r.flags / 2 % 2 == 1);
    proof {
        assert(out@ =~= before + record_head(index as nat, *r));
    }
}

fn push_record_tail(out: &mut String, r: &PsdRecord)
    ensures
        final(out)@ == old(out)@ + record_tail(*r),
{
    let ghost before = out@;
    out.append(",\"top\":");
    push_signed(out, r.top);
    out.append(",\"left\":");
    push_signed(out, r.left);
    out.append(",\"bottom\":");
    push_signed(out, r.bottom);
    out.append(",\"right\":");
    push_signed(out, r.right);
    out.append("}");
    proof {
        assert(out@ =~= before + record_tail(*r));
    }
}

fn push_record(out: &mut String, index: usize, r: &PsdRecord)
    ensures
        final(out)@ == old(out)@ + (record_head(index as nat, *r) + record_tail(*r)),
{
    let ghost before = out@;
    push_record_head(out, index, r);
    push_record_tail(out, r);
    proof {
        assert(out@ =~= before + (record_head(index as nat, *r) + record_tail(*r)));
    }
}

/// The layer records of a file as JSON, in the file's order.
pub fn psd_layer_list(records: &Vec<PsdRecord>) -> (json: String)
    ensures
        json@ == "["@ + records_text(records@, records@.len()) + "]"@,
{
    let mut text: String = "[".to_owned();
    let n: usize = records.len();
    let mut i: usize = 0;
    proof {
        assert(text@ =~= "["@ + records_text(records@, 0));
    }
    while i < n
        invariant
            i <= n,
            n == records@.len(),
            text@ == "["@ + records_text(records@, i as nat),
        decreases n - i,
    {
        if i > 0 {
            text.append(",");
        }
        push_record(&mut text, i, &records[i]);
        i = i + 1;
        proof {
            assert(text@ =~= "["@ + records_text(records@, i as nat));
        }
    }
    text.append("]");
    text
}

/// What a layer holds, by name.
pub open spec fn kind_text(l: Layer) -> Seq<char> {
    if l.kind is Adjustment {
        "adjustment"@
    } else if l.kind is Smart {
        "smart"@
    } else {
        "pixels"@
    }
}

/// The first half of a layer's row: what it is.
pub open spec fn layer_head(index: nat, l: Layer) -> Seq<char> {
    "{\"index\":"@ + crate::strings::decimal(index) + ",\"id\":"@ + crate::strings::decimal(
        l.id as nat,
    ) + ",\"name\":"@ + crate::strings::json_text(l.name@) + ",\"visible\":"@
        + crate::strings::bool_text(l.visible) + ",\"locked\":"@ + crate::strings::bool_text(
        l.locked,
    )
}

/// How a layer blends, in its row.
pub open spec fn layer_blend(l: Layer, opacity: Seq<char>) -> Seq<char> {
    ",\"opacity\":"@ + opacity + ",\"blend\":\""@ + l.blend.wire() + "\",\"hasMask\":"@
        + crate::strings::bool_text(l.mask is Some)
}

/// The rest of a layer's row: how its mask stands, and what it holds.
pub open spec fn layer_state(l: Layer) -> Seq<char> {
    ",\"maskEnabled\":"@ + crate::strings::bool_text(l.mask_enabled) + ",\"kind\":\""@
        + kind_text(l) + "\"}"@
}

/// The second half of a layer's row: how it blends and what it holds.
pub open spec fn layer_tail(l: Layer, opacity: Seq<char>) -> Seq<char> {
    layer_blend(l, opacity) + layer_state(l)
}

/// A layer as a JSON object, with the text of its opacity.
pub open spec fn layer_row(index: nat, l: Layer, opacity: Seq<char>) -> Seq<char> {
    layer_head(index, l) + layer_tail(l, opacity)
}

fn push_layer_head(out: &mut String, index: usize, l: &Layer)
    ensures
        final(out)@ == old(out)@ + layer_head(index as nat, *l),
{
    let ghost before = out@;
    out.append("{\"index\":");
    push_len(out, index);
    out.append(",\"id\":");
    push_decimal(out, l.id as u128);
    out.append(",\"name\":");
    push_json_string(out, l.name.as_str());
    out.append(",\"visible\":");
    push_bool(out, l.visible);
    out.append(",\"locked\":");
    push_bool(out, l.locked);
    proof {
        assert(out@ =~= before + layer_head(index as nat, *l));
    }
}

fn push_kind(out: &mut String, l: &Layer)
    ensures
        final(out)@ == old(out)@ + kind_text(*l),
{
    if l.adjust_params().is_some() {
        out.append("adjustment");
    } else if l.smart_source().is_some() {
        out.append("smart");
    } else {
        out.append("pixels");
    }
}

fn push_layer_blend(out: &mut String, l: &Layer, opacity: &str)
    ensures
        final(out)@ == old(out)@ + layer_blend(*l, opacity@),
{
    let ghost before = out@;
    out.append(",\"opacity\":");
    out.append(opacity);
    out.append(",\"blend\":\"");
    out.append(l.blend_name());
    out.append("\",\"hasMask\":");
    push_bool(out, l.mask.is_some());
    proof {
        assert(out@ =~= before + layer_blend(*l, opacity@));
    }
}

fn push_layer_state(out: &mut String, l: &Layer)
    ensures
        final(out)@ == old(out)@ + layer_state(*l),
{
    let ghost before = out@;
    out.append(",\"maskEnabled\":");
    push_bool(out, l.mask_enabled);
    out.append(",\"kind\":\"");
    push_kind(out, l);
    out.append("\"}");
    proof {
        assert(out@ =~= before + layer_state(*l));
    }
}

fn push_layer_tail(out: &mut String, l: &Layer, opacity: &str)
    ensures
        final(out)@ == old(out)@ + layer_tail(*l, opacity@),
{
    let ghost before = out@;
    push_layer_blend(out, l, opacity);
    push_layer_state(out, l);
    proof {
        assert(out@ =~= before + layer_tail(*l, opacity@));
    }
}

fn push_layer_row(out: &mut String, index: usize, l: &Layer, opacity: &str)
    ensures
        final(out)@ == old(out)@ + layer_row(index as nat, *l, opacity@),
{
    let ghost before = out@;
    push_layer_head(out, index, l);
    push_layer_tail(out, l, opacity);
    proof {
        assert(out@ =~= before + layer_row(index as nat, *l, opacity@));
    }
}

/// The first `n` layers as JSON objects, with commas between them; `opacity`
/// holds the text of each layer's opacity.
pub open spec fn layer_rows(list: Seq<Layer>, opacity: Seq<String>, n: nat) -> Seq<char>
    decreases n,
{
    if n == 0 {
        Seq::empty()
    } else {
        layer_rows(list, opacity, (n - 1) as nat) + crate::strings::separator(n) + layer_row(
            (n - 1) as nat,
            list[n - 1],
            opacity[n - 1]@,
        )
    }
}

/// The stack as JSON, bottom first. `opacity` holds the text of each layer's
/// opacity. Without a stack the list is empty and nothing is active.
pub fn layers_list(stack: Option<&LayerStack>, opacity: &Vec<String>) -> (json: String)
    requires
        stack matches Some(s) ==> s.wf() && opacity@.len() == s.list().len(),
    ensures
        json@ == (match stack {
            None => "{\"active\":-1,\"layers\":[]}"@,
            Some(s) => "{\"active\":"@ + crate::strings::decimal(s.current() as nat)
                + ",\"layers\":["@ + layer_rows(s.list(), opacity@, s.list().len()) + "]}"@,
        }),
{
    let s: &LayerStack = match stack {
        Some(s) => s,
        None => {
            return "{\"active\":-1,\"layers\":[]}".to_owned();
        },
    };
    let mut text: String = "{\"active\":".to_owned();
    push_len(&mut text, s.active_index());
    text.append(",\"layers\":[");
    let ghost head = text@;
    let list: &[Layer] = s.layers();
    let n: usize = list.len();
    let mut i: usize = 0;
    proof {
        assert(text@ =~= head + layer_rows(list@, opacity@, 0));
    }
    while i < n
        invariant
            i <= n,
            n == list@.len(),
            n == opacity@.len(),
            text@ == head + layer_rows(list@, opacity@, i as nat),
        decreases n - i,
    {
        if i > 0 {
            text.append(",");
        }
        push_layer_row(&mut text, i, &list[i], opacity[i].as_str());
        i = i + 1;
        proof {
            assert(text@ =~= head + layer_rows(list@, opacity@, i as nat));
        }
    }
    text.append("]}");
    proof {
        assert(text@ =~= "{\"active\":"@ + crate::strings::decimal(s.current() as nat)
            + ",\"layers\":["@ + layer_rows(s.list(), opacity@, s.list().len()) + "]}"@);
    }
    text
}

/// The journal as a panel shows it: its bound and use, the labels of what can be
/// undone, oldest first, and of what can be redone, next to replay first.
#[derive(Debug)]
pub struct History {
    pub stats: HistoryStats,
    pub undo: Vec<String>,
    pub redo: Vec<String>,
}

/// Label `i` as JSON, or `null` where there is none.
pub open spec fn label_text(labels: Seq<String>, i: int) -> Seq<char> {
    if 0 <= i < labels.len() {
        crate::strings::json_text(labels[i]@)
    } else {
        "null"@
    }
}

/// How deep a history is.
pub open spec fn history_depth(s: HistoryStats) -> Seq<char> {
    "{\"canUndo\":"@ + crate::strings::bool_text(s.can_undo) + ",\"canRedo\":"@
        + crate::strings::bool_text(s.can_redo) + ",\"depth\":"@ + crate::strings::decimal(
        s.depth as nat,
    ) + ",\"redoDepth\":"@ + crate::strings::decimal(s.redo_depth as nat)
}

/// How much a history holds, and its bound.
pub open spec fn history_use(s: HistoryStats) -> Seq<char> {
    ",\"bytes\":"@ + crate::strings::decimal(s.bytes as nat) + ",\"maxBytes\":"@
        + crate::strings::decimal(s.max_bytes as nat) + ",\"maxEntries\":"@
        + crate::strings::decimal(s.max_entries as nat) + ",\"dropped\":"@
        + crate::strings::decimal(s.dropped as nat) + ",\"generation\":"@
        + crate::strings::decimal(s.generation as nat)
}

/// The numbers of a history.
pub open spec fn history_head(s: HistoryStats) -> Seq<char> {
    history_depth(s) + history_use(s)
}

/// The labels of a history: the step that an undo takes back is the newest, the
/// last of its list, and the step that a redo replays is the first of its.
pub open spec fn history_tail(undo: Seq<String>, redo: Seq<String>) -> Seq<char> {
    ",\"undoLabel\":"@ + label_text(undo, undo.len() - 1) + ",\"redoLabel\":"@ + label_text(
        redo,
        0,
    ) + ",\"undoSteps\":["@
        + crate::strings::json_list(undo, undo.len()) + "],\"redoSteps\":["@
        + crate::strings::json_list(redo, redo.len()) + "]}"@
}

fn push_label(out: &mut String, labels: &Vec<String>, i: Option<usize>)
    requires
        i matches Some(k) ==> k < labels@.len(),
    ensures
        final(out)@ == old(out)@ + (match i {
            Some(k) => label_text(labels@, k as int),
            None => "null"@,
        }),
{
    match i {
        Some(k) => {
            push_json_string(out, labels[k].as_str());
        },
        None => {
            out.append("null");
        },
    }
}

fn push_history_depth(out: &mut String, s: &HistoryStats)
    ensures
        final(out)@ == old(out)@ + history_depth(*s),
{
    let ghost before = out@;
    out.append("{\"canUndo\":");
    push_bool(out, s.can_undo);
    out.append(",\"canRedo\":");
    push_bool(out, s.can_redo);
    out.append(",\"depth\":");
    push_len(out, s.depth);
    out.append(",\"redoDepth\":");
    push_len(out, s.redo_depth);
    proof {
        assert(out@ =~= before + history_depth(*s));
    }
}

fn push_history_use(out: &mut String, s: &HistoryStats)
    ensures
        final(out)@ == old(out)@ + history_use(*s),
{
    let ghost before = out@;
    out.append(",\"bytes\":");
    push_len(out, s.bytes);
    out.append(",\"maxBytes\":");
    push_len(out, s.max_bytes);
    out.append(",\"maxEntries\":");
    push_len(out, s.max_entries);
    out.append(",\"dropped\":");
    push_decimal(out, s.dropped as u128);
    out.append(",\"generation\":");
    push_decimal(out, s.generation as u128);
    proof {
        assert(out@ =~= before + history_use(*s));
    }
}

fn push_history_head(out: &mut String, s: &HistoryStats)
    ensures
        final(out)@ == old(out)@ + history_head(*s),
{
    let ghost before = out@;
    push_history_depth(out, s);
    push_history_use(out, s);
    proof {
        assert(out@ =~= before + history_head(*s));
    }
}

/// The undo and redo readout as JSON, with the bound of the journal and how
/// much of it is used; `null` without a stack.
pub fn layers_history(history: Option<&History>) -> (json: String)
    ensures
        json@ == (match history {
            None => "null"@,
            Some(h) => history_head(h.stats) + history_tail(h.undo@, h.redo@),
        }),
{
    let h: &History = match history {
        Some(h) => h,
        None => {
            return "null".to_owned();
        },
    };
    let mut text: String = String::new();
    push_history_head(&mut text, &h.stats);
    let ghost head = text@;
    proof {
        assert(head =~= history_head(h.stats));
    }
    text.append(",\"undoLabel\":");
    let last: Option<usize> = h.undo.len().checked_sub(1);
    push_label(&mut text, &h.undo, last);
    text.append(",\"redoLabel\":");
    let next: Option<usize> = if h.redo.len() > 0 {
        Some(0)
    } else {
        None
    };
    push_label(&mut text, &h.redo, next);
    text.append(",\"undoSteps\":[");
    push_json_list(&mut text, &h.undo);
    text.append("],\"redoSteps\":[");
    push_json_list(&mut text, &h.redo);
    text.append("]}");
    proof {
        assert(text@ =~= head + history_tail(h.undo@, h.redo@));
    }
    text
}

/// Each number of an adjustment arrives under its own name, and the stages that it
/// then plans carry it: nothing is renamed on the way from the panel to the device.
pub proof fn a_slider_reaches_its_own_stage<F: Fn(Scalar) -> u32>(
    w: AdjustWire,
    p: AdjustParams,
    radius: F,
    list: Seq<crate::adjust::Stage>,
    s: crate::adjust::Stage,
)
    requires
        carries(w, p),
        p.plans(radius, list),
        list.contains(s),
    ensures
        match s {
            crate::adjust::Stage::Exposure { ev } => ev == w.exposure_ev,
            crate::adjust::Stage::WhiteBalance { temp, tint } => temp == w.temp && tint == w.tint,
            crate::adjust::Stage::Levels { levels } => levels == w.levels,
            crate::adjust::Stage::BrightnessContrast { brightness, contrast } => brightness
                == w.brightness && contrast == w.contrast,
            crate::adjust::Stage::Saturation { amount } => amount == w.saturation,
            crate::adjust::Stage::HueRotate { degrees } => degrees == w.hue_degrees,
            crate::adjust::Stage::Invert => w.invert,
            crate::adjust::Stage::Blur { sigma, .. } => sigma == w.blur_sigma,
            crate::adjust::Stage::Sharpen { amount, .. } => amount == w.sharpen_amount,
            _ => true,
        },
{
    crate::adjust::every_stage_carries_its_own_parameters(p, radius, list, s);
}

/// A flat list is read as points, the column first and then the row, in its order.
pub proof fn a_flat_list_is_read_as_points(flat: Seq<Scalar>, i: int)
    requires
        0 <= i,
        2 * i + 1 < flat.len(),
    ensures
        pairs(flat)[i].0 == flat[2 * i],
        pairs(flat)[i].1 == flat[2 * i + 1],
        pairs(flat).len() == flat.len() / 2,
{
}

/// Each number of a brush arrives under its own name: the stroke that is begun with it
/// has that very size, hardness, opacity, flow, spacing and colour, where they are in
/// range.
pub proof fn a_brush_arrives_under_its_own_names(
    tool: Seq<char>,
    wire: StrokeWire,
    blend: Seq<char>,
    color: Seq<Scalar>,
    pressure: Seq<char>,
    p: StrokeParams,
    sane: StrokeParams,
)
    requires
        decodes_stroke(tool, wire, blend, color, pressure, Ok(p)),
        crate::stroke::sanitizes(p, sane),
        color.len() == 4,
    ensures
        0x3f00_0000 <= wire.size.rank() <= 0x4500_0000 ==> sane.size == wire.size,
        0 <= wire.hardness.rank() <= 0x3f80_0000 ==> sane.hardness == wire.hardness,
        0 <= wire.opacity.rank() <= 0x3f80_0000 ==> sane.opacity == wire.opacity,
        0 <= wire.flow.rank() <= 0x3f80_0000 && !(sane.tool is Pencil) ==> sane.flow == wire.flow,
        0x3c23_d70a <= wire.spacing.rank() <= 0x4080_0000 ==> sane.spacing == wire.spacing,
        sane.tool.wire() == tool,
        sane.pressure.wire() == pressure,
        forall|k: int|
            0 <= k < 4 && 0 <= color[k].rank() <= 0x3f80_0000 ==> #[trigger] sane.color@[k]
                == color[k],
{
    crate::stroke::sanitized_numbers_are_in_range(p, sane);
    assert(p.color@[0] == color[0] && p.color@[1] == color[1] && p.color@[2] == color[2]
        && p.color@[3] == color[3]);
}

/// A gradient runs from its first stop to its second, each in its own order of red,
/// green, blue and alpha.
pub proof fn a_gradient_keeps_its_stops(
    kind: Seq<char>,
    c0: Seq<Scalar>,
    c1: Seq<Scalar>,
    g: FillSpec,
    k: int,
)
    requires
        decodes_gradient(kind, c0, c1, Ok(g)),
        0 <= k < 4,
    ensures
        g matches FillSpec::Gradient { kind: d, c0: a, c1: b } && d.wire() == kind && a@[k] == c0[k]
            && b@[k] == c1[k],
{
}

/// A negative number is written behind a minus, and its digits are those of its size.
pub proof fn a_sign_stands_before_the_size(n: nat)
    requires
        n > 0,
    ensures
        signed(-n) == seq!['-'] + signed(n as int),
        signed(0) == crate::strings::decimal(0),
{
    reveal_strlit("-");
    assert("-"@ =~= seq!['-']);
}

} // verus!
