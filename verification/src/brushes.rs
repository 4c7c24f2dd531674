//! Brush presets, reduced to what the paint engine can act on.
//!
//! Three rules of honesty. A parameter that a tip does not have is absent, never
//! a default. A diameter keeps its unit, so that a percentage is not applied as
//! pixels. A tip that is not supported is still listed: one exotic brush must
//! not cost the library.
use crate::strings::{
    push_bool, push_decimal, push_hex_byte, push_json_list, push_json_string, same_text,
};
use vstd::prelude::*;

verus! {

/// A double-precision number, by its bit pattern and its shortest decimal text.
#[derive(Debug, Clone)]
pub struct Number {
    pub bits: u64,
    pub text: String,
}

impl Number {
    /// Whether the number is finite: its exponent is not all ones.
    pub open spec fn finite(self) -> bool {
        self.bits / 0x10_0000_0000_0000 % 0x800 != 0x7ff
    }

    pub fn is_finite(&self) -> (yes: bool)
        ensures
            yes == self.finite(),
    {
        self.bits / 0x10_0000_0000_0000 % 0x800 != 0x7ff
    }

    /// Whether two numbers have the same bits and text.
    pub open spec fn same(self, other: Number) -> bool {
        self.bits == other.bits && self.text@ == other.text@
    }

    fn copy(&self) -> (copy: Number)
        ensures
            copy.same(*self),
    {
        Number { bits: self.bits, text: self.text.as_str().to_owned() }
    }
}

/// What every tip with a shape has.
#[derive(Debug)]
pub struct TipCommon {
    pub diameter: Number,
    pub diameter_unit: [u8; 4],
    pub angle_deg: Number,
    pub spacing: Number,
    /// When false, the brush is spaced by cursor movement and `spacing` is
    /// inert.
    pub spacing_enabled: bool,
}

/// A tip as a brush file stores it.
#[derive(Debug)]
pub enum AbrTip {
    Computed { common: TipCommon, roundness: Number, hardness: Number },
    Sampled { common: TipCommon, roundness: Number },
    Bristle { common: TipCommon },
    Erodible { common: TipCommon, stated_hardness: Option<Number> },
    Unsupported,
    Missing,
}

/// A brush of a file.
#[derive(Debug)]
pub struct AbrBrush {
    /// Its place in the file; the folder tree refers to presets by it.
    pub index: usize,
    pub name: String,
    pub tip: AbrTip,
}

/// A brush file.
#[derive(Debug)]
pub struct AbrFile {
    pub version: u16,
    pub minor_version: u16,
    pub sample_count: usize,
    pub brushes: Vec<AbrBrush>,
    /// What the reader complained of.
    pub warnings: Vec<String>,
}

/// One preset, reduced to what the paint engine can act on.
#[derive(Debug, Clone)]
pub struct BrushPreset {
    pub index: usize,
    pub name: String,
    /// `computed`, `sampled`, `bristle`, `erodible`, `unsupported` or `missing`.
    pub kind: &'static str,
    /// In `diameter_unit`.
    pub diameter: Option<Number>,
    pub diameter_unit: Option<String>,
    pub hardness: Option<Number>,
    pub spacing: Option<Number>,
    pub spacing_enabled: Option<bool>,
    pub roundness: Option<Number>,
    pub angle_deg: Option<Number>,
}

/// Whether an absent number is absent, and a present one the same.
pub open spec fn same_number(a: Option<Number>, b: Option<Number>) -> bool {
    match (a, b) {
        (Some(x), Some(y)) => x.same(y),
        (None, None) => true,
        _ => false,
    }
}

impl AbrTip {
    /// The shape that the tip has.
    pub open spec fn shape(self) -> Option<TipCommon> {
        match self {
            AbrTip::Computed { common, .. } => Some(common),
            AbrTip::Sampled { common, .. } => Some(common),
            AbrTip::Bristle { common } => Some(common),
            AbrTip::Erodible { common, .. } => Some(common),
            AbrTip::Unsupported => None,
            AbrTip::Missing => None,
        }
    }

    /// The tip's kind.
    pub open spec fn kind(self) -> Seq<char> {
        match self {
            AbrTip::Computed { .. } => "computed"@,
            AbrTip::Sampled { .. } => "sampled"@,
            AbrTip::Bristle { .. } => "bristle"@,
            AbrTip::Erodible { .. } => "erodible"@,
            AbrTip::Unsupported => "unsupported"@,
            AbrTip::Missing => "missing"@,
        }
    }

    /// The hardness, where the file says one.
    pub open spec fn hardness(self) -> Option<Number> {
        match self {
            AbrTip::Computed { hardness, .. } => Some(hardness),
            AbrTip::Erodible { stated_hardness, .. } => stated_hardness,
            _ => None,
        }
    }

    /// The roundness, where the tip has one.
    pub open spec fn roundness(self) -> Option<Number> {
        match self {
            AbrTip::Computed { roundness, .. } => Some(roundness),
            AbrTip::Sampled { roundness, .. } => Some(roundness),
            _ => None,
        }
    }

    pub fn common(&self) -> (common: Option<&TipCommon>)
        ensures
            match common {
                Some(c) => self.shape() == Some(*c),
                None => self.shape() is None,
            },
    {
        match self {
            AbrTip::Computed { common, .. } => Some(common),
            AbrTip::Sampled { common, .. } => Some(common),
            AbrTip::Bristle { common } => Some(common),
            AbrTip::Erodible { common, .. } => Some(common),
            AbrTip::Unsupported => None,
            AbrTip::Missing => None,
        }
    }
}

/// Whether a preset is the projection of a brush.
pub open spec fn projects(p: BrushPreset, brush: AbrBrush) -> bool {
    &&& p.index == brush.index
    &&& p.name@ == brush.name@
    &&& p.kind@ == brush.tip.kind()
    &&& same_number(p.hardness, brush.tip.hardness())
    &&& same_number(p.roundness, brush.tip.roundness())
    &&& match brush.tip.shape() {
        Some(c) => {
            &&& same_number(p.diameter, Some(c.diameter))
            &&& p.diameter_unit matches Some(u) && u@ == tag_text(c.diameter_unit@)
            &&& same_number(p.spacing, Some(c.spacing))
            &&& p.spacing_enabled == Some(c.spacing_enabled)
            &&& same_number(p.angle_deg, Some(c.angle_deg))
        },
        None => {
            &&& p.diameter is None
            &&& p.diameter_unit is None
            &&& p.spacing is None
            &&& p.spacing_enabled is None
            &&& p.angle_deg is None
        },
    }
}

/// Whether a byte is a visible ASCII character.
pub open spec fn graphic(b: u8) -> bool {
    0x21 <= b <= 0x7e
}

/// A four-byte tag as text: its characters where all are visible, else its
/// bytes in hexadecimal. The tag is diagnostic, so nothing is replaced.
pub open spec fn tag_text(raw: Seq<u8>) -> Seq<char> {
    if graphic(raw[0]) && graphic(raw[1]) && graphic(raw[2]) && graphic(raw[3]) {
        seq![raw[0] as char, raw[1] as char, raw[2] as char, raw[3] as char]
    } else {
        crate::strings::hex_byte(raw[0]) + crate::strings::hex_byte(raw[1])
            + crate::strings::hex_byte(raw[2]) + crate::strings::hex_byte(raw[3])
    }
}

fn is_graphic(b: u8) -> (yes: bool)
    ensures
        yes == graphic(b),
{
    0x21 <= b && b <= 0x7e
}

/// A four-byte unit tag as text.
pub fn unit_tag(raw: &[u8; 4]) -> (text: String)
    ensures
        text@ == tag_text(raw@),
{
    let mut text: String = String::new();
    if is_graphic(raw[0]) && is_graphic(raw[1]) && is_graphic(raw[2]) && is_graphic(raw[3]) {
        text.push(raw[0] as char);
        text.push(raw[1] as char);
        text.push(raw[2] as char);
        text.push(raw[3] as char);
    } else {
        push_hex_byte(&mut text, raw[0]);
        push_hex_byte(&mut text, raw[1]);
        push_hex_byte(&mut text, raw[2]);
        push_hex_byte(&mut text, raw[3]);
    }
    proof {
        assert(text@ =~= tag_text(raw@));
    }
    text
}

fn copied(n: &Option<Number>) -> (copy: Option<Number>)
    ensures
        same_number(copy, *n),
{
    match n {
        Some(v) => Some(v.copy()),
        None => None,
    }
}

fn preset_of(brush: &AbrBrush) -> (preset: BrushPreset)
    ensures
        projects(preset, *brush),
{
    let kind: &'static str = match &brush.tip {
        AbrTip::Computed { .. } => "computed",
        AbrTip::Sampled { .. } => "sampled",
        AbrTip::Bristle { .. } => "bristle",
        AbrTip::Erodible { .. } => "erodible",
        AbrTip::Unsupported => "unsupported",
        AbrTip::Missing => "missing",
    };
    let hardness: Option<Number> = match &brush.tip {
        AbrTip::Computed { hardness, .. } => Some(hardness.copy()),
        AbrTip::Erodible { stated_hardness, .. } => copied(stated_hardness),
        _ => None,
    };
    let roundness: Option<Number> = match &brush.tip {
        AbrTip::Computed { roundness, .. } => Some(roundness.copy()),
        AbrTip::Sampled { roundness, .. } => Some(roundness.copy()),
        _ => None,
    };
    let (index, name): (usize, String) = (brush.index, brush.name.as_str().to_owned());
    match brush.tip.common() {
        Some(c) => BrushPreset {
            index,
            name,
            kind,
            diameter: Some(c.diameter.copy()),
            diameter_unit: Some(unit_tag(&c.diameter_unit)),
            hardness,
            spacing: Some(c.spacing.copy()),
            spacing_enabled: Some(c.spacing_enabled),
            roundness,
            angle_deg: Some(c.angle_deg.copy()),
        },
        None => BrushPreset {
            index,
            name,
            kind,
            diameter: None,
            diameter_unit: None,
            hardness,
            spacing: None,
            spacing_enabled: None,
            roundness,
            angle_deg: None,
        },
    }
}

/// Project a brush file onto the paint engine's parameters, preset by preset.
pub fn presets_of(file: &AbrFile) -> (presets: Vec<BrushPreset>)
    ensures
        presets@.len() == file.brushes@.len(),
        forall|i: int|
            0 <= i < presets@.len() ==> projects(#[trigger] presets@[i], file.brushes@[i]),
{
    let mut presets: Vec<BrushPreset> = Vec::new();
    let n: usize = file.brushes.len();
    let mut i: usize = 0;
    while i < n
        invariant
            n == file.brushes@.len(),
            i <= n,
            presets@.len() == i,
            forall|j: int| 0 <= j < i ==> projects(#[trigger] presets@[j], file.brushes@[j]),
        decreases n - i,
    {
        presets.push(preset_of(&file.brushes[i]));
        i = i + 1;
    }
    presets
}

impl BrushPreset {
    /// Whether the diameter can be read as pixels.
    pub fn diameter_is_pixels(&self) -> (yes: bool)
        ensures
            yes <==> (self.diameter_unit matches Some(u) && u@ == "#Pxl"@),
    {
        match &self.diameter_unit {
            Some(u) => same_text(u.as_str(), "#Pxl"),
            None => false,
        }
    }
}

/// A number as JSON writes it. Those that JSON has no form for are `null`: one
/// odd preset must not make the whole file unreadable.
pub open spec fn num_text(v: Option<Number>) -> Seq<char> {
    match v {
        Some(n) => if n.finite() {
            n.text@
        } else {
            "null"@
        },
        None => "null"@,
    }
}

fn push_num(out: &mut String, v: &Option<Number>)
    ensures
        final(out)@ == old(out)@ + num_text(*v),
{
    match v {
        Some(n) => if n.is_finite() {
            out.append(n.text.as_str());
        } else {
            out.append("null");
        },
        None => {
            out.append("null");
        },
    }
}

/// A number as JSON.
pub fn json_num(v: &Option<Number>) -> (text: String)
    ensures
        text@ == num_text(*v),
{
    let mut text: String = String::new();
    push_num(&mut text, v);
    proof {
        assert(text@ =~= num_text(*v));
    }
    text
}

/// The unit of a row, as a JSON string.
pub open spec fn unit_text(u: Option<String>) -> Seq<char> {
    match u {
        Some(s) => crate::strings::json_text(s@),
        None => "null"@,
    }
}

/// Whether a row's spacing is enabled, as JSON.
pub open spec fn flag_text(b: Option<bool>) -> Seq<char> {
    match b {
        Some(v) => crate::strings::bool_text(v),
        None => "null"@,
    }
}

/// The first half of a row: what the preset is.
pub open spec fn row_head(p: BrushPreset) -> Seq<char> {
    "{\"index\":"@ + crate::strings::decimal(p.index as nat) + ",\"name\":"@
        + crate::strings::json_text(p.name@) + ",\"kind\":\""@ + p.kind@ + "\",\"diameter\":"@
        + num_text(p.diameter) + ",\"diameterUnit\":"@ + unit_text(p.diameter_unit)
}

/// The second half of a row: how the preset paints.
pub open spec fn row_tail(p: BrushPreset) -> Seq<char> {
    ",\"hardness\":"@ + num_text(p.hardness) + ",\"spacing\":"@ + num_text(p.spacing)
        + ",\"spacingEnabled\":"@ + flag_text(p.spacing_enabled) + ",\"roundness\":"@ + num_text(
        p.roundness,
    ) + ",\"angle\":"@ + num_text(p.angle_deg) + "}"@
}

/// A preset as a JSON object.
pub open spec fn row_text(p: BrushPreset) -> Seq<char> {
    row_head(p) + row_tail(p)
}

fn push_row_head(out: &mut String, p: &BrushPreset)
    ensures
        final(out)@ == old(out)@ + row_head(*p),
{
    let ghost before = out@;
    out.append("{\"index\":");
    push_decimal(out, p.index as u128);
    out.append(",\"name\":");
    push_json_string(out, p.name.as_str());
    out.append(",\"kind\":\"");
    out.append(p.kind);
    out.append("\",\"diameter\":");
    push_num(out, &p.diameter);
    out.append(",\"diameterUnit\":");
    match &p.diameter_unit {
        Some(u) => push_json_string(out, u.as_str()),
        None => out.append("null"),
    }
    proof {
        assert(out@ =~= before + row_head(*p));
    }
}

fn push_row_tail(out: &mut String, p: &BrushPreset)
    ensures
        final(out)@ == old(out)@ + row_tail(*p),
{
    let ghost before = out@;
    out.append(",\"hardness\":");
    push_num(out, &p.hardness);
    out.append(",\"spacing\":");
    push_num(out, &p.spacing);
    out.append(",\"spacingEnabled\":");
    match p.spacing_enabled {
        Some(b) => push_bool(out, b),
        None => out.append("null"),
    }
    out.append(",\"roundness\":");
    push_num(out, &p.roundness);
    out.append(",\"angle\":");
    push_num(out, &p.angle_deg);
    out.append("}");
    proof {
        assert(out@ =~= before + row_tail(*p));
    }
}

/// A preset as a JSON object.
pub fn row_json(p: &BrushPreset) -> (text: String)
    ensures
        text@ == row_text(*p),
{
    let mut text: String = String::new();
    push_row_head(&mut text, p);
    push_row_tail(&mut text, p);
    proof {
        assert(text@ =~= row_text(*p));
    }
    text
}

/// The text of a brush in a list: that of its projection.
pub open spec fn brush_text(brush: AbrBrush) -> Seq<char> {
    let shape = brush.tip.shape();
    let (diameter, unit, spacing, enabled, angle) = match shape {
        Some(c) => (
            num_text(Some(c.diameter)),
            crate::strings::json_text(tag_text(c.diameter_unit@)),
            num_text(Some(c.spacing)),
            crate::strings::bool_text(c.spacing_enabled),
            num_text(Some(c.angle_deg)),
        ),
        None => ("null"@, "null"@, "null"@, "null"@, "null"@),
    };
    ("{\"index\":"@ + crate::strings::decimal(brush.index as nat) + ",\"name\":"@
        + crate::strings::json_text(brush.name@) + ",\"kind\":\""@ + brush.tip.kind()
        + "\",\"diameter\":"@ + diameter + ",\"diameterUnit\":"@ + unit) + (",\"hardness\":"@
        + num_text(brush.tip.hardness()) + ",\"spacing\":"@ + spacing + ",\"spacingEnabled\":"@
        + enabled + ",\"roundness\":"@ + num_text(brush.tip.roundness()) + ",\"angle\":"@ + angle
        + "}"@)
}

/// The row of a preset is the row of the brush that it projects.
proof fn lemma_row(p: BrushPreset, brush: AbrBrush)
    requires
        projects(p, brush),
    ensures
        row_text(p) == brush_text(brush),
{
}

/// The first `n` brushes as JSON objects, with commas between them.
pub open spec fn brushes_text(list: Seq<AbrBrush>, n: nat) -> Seq<char>
    decreases n,
{
    if n == 0 {
        Seq::empty()
    } else {
        brushes_text(list, (n - 1) as nat) + crate::strings::separator(n) + brush_text(list[n - 1])
    }
}

/// A brush file as JSON.
pub open spec fn file_text(file: AbrFile) -> Seq<char> {
    ("{\"version\":"@ + crate::strings::decimal(file.version as nat) + ",\"minorVersion\":"@
        + crate::strings::decimal(file.minor_version as nat) + ",\"presetCount\":"@
        + crate::strings::decimal(file.brushes@.len()) + ",\"sampleCount\":"@
        + crate::strings::decimal(file.sample_count as nat)) + (",\"warnings\":["@ + crate::strings::json_list(
        file.warnings@,
        file.warnings@.len(),
    ) + "],\"presets\":["@ + brushes_text(file.brushes@, file.brushes@.len()) + "]}"@)
}

#[verifier::rlimit(30)]
fn push_brushes(text: &mut String, file: &AbrFile)
    ensures
        final(text)@ == old(text)@ + brushes_text(file.brushes@, file.brushes@.len()),
{
    let presets: Vec<BrushPreset> = presets_of(file);
    let n: usize = presets.len();
    let ghost before = text@;
    let mut i: usize = 0;
    proof {
        assert(before + brushes_text(file.brushes@, 0) =~= before);
    }
    while i < n
        invariant
            i <= n,
            n == presets@.len(),
            n == file.brushes@.len(),
            forall|j: int| 0 <= j < n ==> projects(#[trigger] presets@[j], file.brushes@[j]),
            text@ == before + brushes_text(file.brushes@, i as nat),
        decreases n - i,
    {
        if i > 0 {
            text.append(",");
        }
        let ghost so_far = text@;
        push_row_head(text, &presets[i]);
        push_row_tail(text, &presets[i]);
        proof {
            lemma_row(presets@[i as int], file.brushes@[i as int]);
            assert(text@ =~= so_far + row_text(presets@[i as int]));
        }
        i = i + 1;
        proof {
            assert(text@ =~= before + brushes_text(file.brushes@, i as nat));
        }
    }
}

/// A brush file as JSON: `{version, minorVersion, presetCount, sampleCount,
/// warnings, presets}`. The reader's warnings are carried through: a file that
/// parsed with complaints is not one that parsed cleanly.
pub fn render_json(file: &AbrFile) -> (text: String)
    ensures
        text@ == file_text(*file),
{
    let mut text: String = "{\"version\":".to_owned();
    push_decimal(&mut text, file.version as u128);
    text.append(",\"minorVersion\":");
    push_decimal(&mut text, file.minor_version as u128);
    text.append(",\"presetCount\":");
    push_decimal(&mut text, file.brushes.len() as u128);
    text.append(",\"sampleCount\":");
    push_decimal(&mut text, file.sample_count as u128);
    let ghost head = text@;
    text.append(",\"warnings\":[");
    push_json_list(&mut text, &file.warnings);
    text.append("],\"presets\":[");
    push_brushes(&mut text, file);
    text.append("]}");
    proof {
        assert(text@ =~= head + (",\"warnings\":["@ + crate::strings::json_list(
            file.warnings@,
            file.warnings@.len(),
        ) + "],\"presets\":["@ + brushes_text(file.brushes@, file.brushes@.len()) + "]}"@));
    }
    text
}

/// No preset is dropped, whatever its tip: a brush without parameters has a row
/// with its name and kind, and `null` for the rest.
pub proof fn a_tip_without_shape_is_listed(p: BrushPreset, brush: AbrBrush)
    requires
        projects(p, brush),
        brush.tip is Unsupported || brush.tip is Missing,
    ensures
        p.name@ == brush.name@,
        p.index == brush.index,
        p.diameter is None,
        p.hardness is None,
        p.spacing is None,
        p.roundness is None,
        p.angle_deg is None,
{
}

/// A preset shows its brush's own numbers, each under its own name: whatever shape
/// the tip has, its diameter, spacing and angle are those of the file, hardness is
/// shown where the file states one and roundness where the tip has one.
pub proof fn a_preset_shows_its_brush(p: BrushPreset, brush: AbrBrush)
    requires
        projects(p, brush),
    ensures
        p.index == brush.index,
        p.name@ == brush.name@,
        match brush.tip {
            AbrTip::Computed { common, hardness, roundness, .. } => {
                &&& p.hardness matches Some(n) && n.bits == hardness.bits
                &&& p.roundness matches Some(n) && n.bits == roundness.bits
                &&& p.diameter matches Some(n) && n.bits == common.diameter.bits
                &&& p.spacing matches Some(n) && n.bits == common.spacing.bits
                &&& p.angle_deg matches Some(n) && n.bits == common.angle_deg.bits
                &&& p.spacing_enabled == Some(common.spacing_enabled)
            },
            AbrTip::Sampled { common, roundness, .. } => {
                &&& p.hardness is None
                &&& p.roundness matches Some(n) && n.bits == roundness.bits
                &&& p.diameter matches Some(n) && n.bits == common.diameter.bits
                &&& p.spacing matches Some(n) && n.bits == common.spacing.bits
                &&& p.angle_deg matches Some(n) && n.bits == common.angle_deg.bits
                &&& p.spacing_enabled == Some(common.spacing_enabled)
            },
            AbrTip::Bristle { common } => {
                &&& p.hardness is None && p.roundness is None
                &&& p.diameter matches Some(n) && n.bits == common.diameter.bits
                &&& p.spacing matches Some(n) && n.bits == common.spacing.bits
                &&& p.angle_deg matches Some(n) && n.bits == common.angle_deg.bits
                &&& p.spacing_enabled == Some(common.spacing_enabled)
            },
            AbrTip::Erodible { common, stated_hardness, .. } => {
                &&& p.roundness is None
                &&& p.hardness is Some <==> stated_hardness is Some
                &&& stated_hardness matches Some(s) ==> (p.hardness matches Some(n) && n.bits
                    == s.bits)
                &&& p.diameter matches Some(n) && n.bits == common.diameter.bits
                &&& p.spacing matches Some(n) && n.bits == common.spacing.bits
                &&& p.angle_deg matches Some(n) && n.bits == common.angle_deg.bits
                &&& p.spacing_enabled == Some(common.spacing_enabled)
            },
            _ => p.diameter is None && p.spacing is None && p.angle_deg is None,
        },
{
}

} // verus!
