//! Raster type: text shaped line by line, ready to be drawn as a coverage
//! field.
//!
//! Laying glyphs out by their advance widths alone looks plausible for Latin
//! and is wrong for every script that joins or reorders, so every line goes
//! through a shaper. Lines are hard-broken, a newline starts one, and each is
//! shaped on its own: ligatures, kerning and directional runs must not reach
//! across a break. Nothing wraps.
//!
//! Outlines, and the field that their segments rasterize to, are drawn by the
//! caller.
use crate::scalar::{Scalar, ONE, ZERO};
use crate::typeset::{ink, place, Bounds, Ink, Outline, Placement, Point, Seg, Sheet};
use vstd::prelude::*;

verus! {

/// A rasterized run: an 8-bit coverage field, and where it sits relative to
/// the caller's baseline origin.
#[derive(Debug, Clone, PartialEq)]
pub struct RasterRun {
    pub width: u32,
    pub height: u32,
    /// One byte per pixel.
    pub coverage: Vec<u8>,
    /// The top-left corner relative to the origin; ink above the baseline has
    /// a negative `dy`.
    pub dx: i32,
    pub dy: i32,
    /// Glyphs that the face has no outline for: reported, neither drawn as a
    /// box nor skipped in silence.
    pub missing: usize,
}

/// How lines sit relative to each other, measured against the widest one.
#[derive(Debug, Clone, Copy, PartialEq, Eq, Structural)]
pub enum LineAlign {
    Left,
    Center,
    Right,
}

impl Default for LineAlign {
    fn default() -> (align: LineAlign)
        ensures
            align is Left,
    {
        LineAlign::Left
    }
}

/// Typographic settings beyond the face and the size.
#[derive(Debug, Clone, Copy)]
pub struct RunStyle {
    /// Letter spacing in thousandths of an em.
    pub tracking_per_mille: Scalar,
    /// The distance between baselines in pixels; none, or one that is not a
    /// positive number, means the face's own line height.
    pub leading_px: Option<Scalar>,
    /// Baseline offset in pixels, upwards.
    pub baseline_shift_px: Scalar,
    /// Horizontal and vertical scale as a multiple.
    pub h_scale: Scalar,
    pub v_scale: Scalar,
    /// A slant in degrees, leaning right.
    pub skew_deg: Scalar,
    pub underline: bool,
    pub strikethrough: bool,
    /// Standard ligatures.
    pub ligatures: bool,
    pub align: LineAlign,
}

impl Default for RunStyle {
    fn default() -> (style: RunStyle)
        ensures
            style.tracking_per_mille == crate::scalar::zero(),
            style.leading_px is None,
            style.baseline_shift_px == crate::scalar::zero(),
            style.h_scale == crate::scalar::one(),
            style.v_scale == crate::scalar::one(),
            style.skew_deg == crate::scalar::zero(),
            !style.underline,
            !style.strikethrough,
            style.ligatures,
            style.align is Left,
    {
        RunStyle {
            tracking_per_mille: Scalar { bits: ZERO },
            leading_px: None,
            baseline_shift_px: Scalar { bits: ZERO },
            h_scale: Scalar { bits: ONE },
            v_scale: Scalar { bits: ONE },
            skew_deg: Scalar { bits: ZERO },
            underline: false,
            strikethrough: false,
            ligatures: true,
            align: LineAlign::Left,
        }
    }
}

/// Whether a number is finite and above zero.
pub open spec fn usable(s: Scalar) -> bool {
    s.finite() && crate::scalar::zero().below(s)
}

fn is_usable(s: Scalar) -> (yes: bool)
    ensures
        yes <==> usable(s),
{
    s.is_finite() && (Scalar { bits: ZERO }).lt(s)
}

impl RunStyle {
    /// The distance between baselines, given the face's own line height.
    pub open spec fn line_height(self, auto: Scalar) -> Scalar {
        match self.leading_px {
            Some(l) => if usable(l) {
                l
            } else {
                auto
            },
            None => auto,
        }
    }

    /// The style without a leading that is not a positive number.
    pub open spec fn leading_dropped(self) -> RunStyle {
        match self.leading_px {
            Some(l) if !usable(l) => RunStyle { leading_px: None, ..self },
            _ => self,
        }
    }

    /// The distance between baselines, given the face's own line height.
    pub fn leading(&self, auto: Scalar) -> (leading: Scalar)
        ensures
            leading == self.line_height(auto),
    {
        match self.leading_px {
            Some(l) => if is_usable(l) {
                l
            } else {
                auto
            },
            None => auto,
        }
    }

    /// Where a line starts, given what it lacks to the widest line, and half of
    /// that.
    pub open spec fn start_of(self, slack: Scalar, half_slack: Scalar) -> Scalar {
        match self.align {
            LineAlign::Left => crate::scalar::zero(),
            LineAlign::Center => half_slack,
            LineAlign::Right => slack,
        }
    }

    /// Where a line starts, given what it lacks to the widest line, and half of
    /// that.
    pub fn line_start(&self, slack: Scalar, half_slack: Scalar) -> (x: Scalar)
        ensures
            x == self.start_of(slack, half_slack),
    {
        match self.align {
            LineAlign::Left => Scalar { bits: ZERO },
            LineAlign::Center => half_slack,
            LineAlign::Right => slack,
        }
    }

    /// The features that a line is shaped with, by tag and value. Ligatures are
    /// the shaper's own default, so only their absence is asked for.
    pub open spec fn features(self) -> Seq<(u32, u32)> {
        if self.ligatures {
            Seq::empty()
        } else {
            seq![(LIGA, 0u32)]
        }
    }

    fn feature_list(&self) -> (features: Vec<(u32, u32)>)
        ensures
            features@ == self.features(),
    {
        let mut features: Vec<(u32, u32)> = Vec::new();
        if !self.ligatures {
            features.push((LIGA, 0));
        }
        proof {
            assert(features@ =~= self.features());
        }
        features
    }
}

/// The tag of the standard ligatures, `liga`.
pub const LIGA: u32 = 0x6c69_6761;

/// The lines of the first `n` characters of a text: a newline starts a line, and
/// a carriage return right before one is dropped.
pub open spec fn lines_to(text: Seq<char>, n: nat) -> Seq<Seq<char>>
    decreases n,
{
    if n == 0 {
        seq![Seq::empty()]
    } else {
        let rest = lines_to(text, (n - 1) as nat);
        if text[n - 1] == '\n' {
            rest.push(Seq::empty())
        } else if text[n - 1] == '\r' && n < text.len() && text[n as int] == '\n' {
            rest
        } else {
            rest.drop_last().push(rest.last().push(text[n - 1]))
        }
    }
}

/// The lines of a text.
pub open spec fn lines_of(text: Seq<char>) -> Seq<Seq<char>> {
    lines_to(text, text.len())
}

/// A list of texts by their characters.
pub open spec fn texts(list: Seq<String>) -> Seq<Seq<char>> {
    list.map_values(|s: String| s@)
}

/// Split a text into its lines.
pub fn split_lines(text: &str) -> (lines: Vec<String>)
    ensures
        texts(lines@) == lines_of(text@),
        lines@.len() > 0,
{
    let mut chars: Vec<char> = Vec::new();
    for c in iter: text.chars()
        invariant
            iter.seq() == text@,
            chars@ == text@.take(iter.index()),
    {
        chars.push(c);
        proof {
            assert(chars@ =~= text@.take(iter.index() + 1));
        }
    }
    proof {
        assert(text@.take(text@.len() as int) =~= text@);
    }
    let n: usize = chars.len();
    let mut lines: Vec<String> = Vec::new();
    let mut line: String = String::new();
    let mut i: usize = 0;
    proof {
        assert(texts(lines@).push(line@) =~= lines_to(text@, 0));
    }
    while i < n
        invariant
            n == chars@.len(),
            chars@ == text@,
            i <= n,
            texts(lines@).push(line@) == lines_to(text@, i as nat),
        decreases n - i,
    {
        let ghost (done, part) = (texts(lines@), line@);
        let c: char = chars[i];
        if c == '\n' {
            lines.push(line);
            line = String::new();
            proof {
                assert(texts(lines@) =~= done.push(part));
                assert(line@ =~= Seq::<char>::empty());
            }
        } else if c == '\r' && i + 1 < n && chars[i + 1] == '\n' {
        } else {
            line.push(c);
            proof {
                assert(done.push(part).drop_last() =~= done);
            }
        }
        i = i + 1;
    }
    let ghost (done, part) = (texts(lines@), line@);
    lines.push(line);
    proof {
        assert(texts(lines@) =~= done.push(part));
    }
    lines
}

proof fn lemma_same_prefix(a: Seq<char>, b: Seq<char>, n: nat)
    requires
        n <= a.len(),
        n <= b.len(),
        a.take(n as int) == b.take(n as int),
        n == 0 || a[n - 1] != '\r' || ((n < a.len() && a[n as int] == '\n') <==> (n < b.len()
            && b[n as int] == '\n')),
    ensures
        lines_to(a, n) == lines_to(b, n),
    decreases n,
{
    if n > 0 {
        assert(a[n - 1] == a.take(n as int)[n - 1]);
        assert(b[n - 1] == b.take(n as int)[n - 1]);
        assert(a.take(n - 1) =~= a.take(n as int).take(n - 1));
        assert(b.take(n - 1) =~= b.take(n as int).take(n - 1));
        lemma_same_prefix(a, b, (n - 1) as nat);
    }
}

proof fn lemma_same_suffix(a: Seq<char>, b: Seq<char>, i: nat, j: nat, k: nat)
    requires
        i <= a.len(),
        j <= b.len(),
        a.skip(i as int) == b.skip(j as int),
        lines_to(a, i) == lines_to(b, j),
        i + k <= a.len(),
    ensures
        lines_to(a, i + k) == lines_to(b, j + k),
    decreases k,
{
    if k > 0 {
        lemma_same_suffix(a, b, i, j, (k - 1) as nat);
        assert(a.skip(i as int).len() == a.len() - i);
        assert(b.skip(j as int).len() == b.len() - j);
        assert(a.len() - i == b.len() - j);
        assert(a[i + k - 1] == a.skip(i as int)[k - 1]);
        assert(b[j + k - 1] == b.skip(j as int)[k - 1]);
        if i + k < a.len() {
            assert(a[i + k as int] == a.skip(i as int)[k as int]);
            assert(b[j + k as int] == b.skip(j as int)[k as int]);
        }
    }
}

/// A text with the line ending of another platform lays out the same: a
/// carriage return and a newline break a line as the newline alone does.
pub proof fn line_endings_agree(a: Seq<char>, b: Seq<char>)
    requires
        a.len() == 0 || a.last() != '\r',
    ensures
        lines_of(a + seq!['\r', '\n'] + b) == lines_of(a + seq!['\n'] + b),
{
    let s = a + seq!['\r', '\n'] + b;
    let t = a + seq!['\n'] + b;
    let n = a.len();
    assert(s.take(n as int) =~= t.take(n as int));
    assert(n > 0 ==> s[n - 1] == a.last());
    lemma_same_prefix(s, t, n);
    assert(s[n as int] == '\r' && s[n + 1int] == '\n' && t[n as int] == '\n');
    assert(lines_to(s, n + 1) == lines_to(s, n));
    assert(lines_to(s, n + 2) == lines_to(s, n + 1).push(Seq::empty()));
    assert(lines_to(t, n + 1) == lines_to(t, n).push(Seq::empty()));
    assert(s.skip(n + 2int) =~= b);
    assert(t.skip(n + 1int) =~= b);
    lemma_same_suffix(s, t, n + 2, n + 1, b.len());
}

/// Whether a carriage return stands right before a newline at `i`.
pub open spec fn pair_at(text: Seq<char>, i: int) -> bool {
    0 <= i && i + 1 < text.len() && text[i] == '\r' && text[i + 1] == '\n'
}

/// The first `n` characters of a text, each pair of a carriage return and a
/// newline replaced by the newline.
pub open spec fn replaced_to(text: Seq<char>, n: nat) -> Seq<char>
    decreases n,
{
    if n == 0 {
        Seq::empty()
    } else if pair_at(text, n - 1) {
        replaced_to(text, (n - 1) as nat)
    } else {
        replaced_to(text, (n - 1) as nat).push(text[n - 1])
    }
}

/// A text with each pair of a carriage return and a newline replaced by the
/// newline.
pub open spec fn replaced(text: Seq<char>) -> Seq<char> {
    replaced_to(text, text.len())
}

proof fn lemma_replaced_prefix(text: Seq<char>, n: nat, m: nat)
    requires
        n <= m <= text.len(),
    ensures
        replaced_to(text, n).len() <= replaced_to(text, m).len(),
        replaced_to(text, m).take(replaced_to(text, n).len() as int) == replaced_to(text, n),
    decreases m,
{
    let k = replaced_to(text, n).len() as int;
    if n < m {
        lemma_replaced_prefix(text, n, (m - 1) as nat);
        let rest = replaced_to(text, (m - 1) as nat);
        assert(replaced_to(text, m).take(k) =~= rest.take(k));
    } else {
        assert(replaced_to(text, m).take(k) =~= replaced_to(text, n));
    }
}

proof fn lemma_replaced_lines(text: Seq<char>, n: nat)
    requires
        n <= text.len(),
        forall|i: int| 0 < i && #[trigger] pair_at(text, i) ==> text[i - 1] != '\r',
    ensures
        lines_to(replaced(text), replaced_to(text, n).len()) == lines_to(text, n),
    decreases n,
{
    if n > 0 {
        lemma_replaced_lines(text, (n - 1) as nat);
        let all = replaced(text);
        let part = replaced_to(text, n);
        let m = part.len();
        lemma_replaced_prefix(text, n, text.len());
        if !pair_at(text, n - 1) {
            assert(all[m - 1] == all.take(m as int)[m - 1]);
            assert(all[m - 1] == text[n - 1]);
            if text[n - 1] == '\r' && n < text.len() {
                assert(!pair_at(text, n as int));
                lemma_replaced_prefix(text, n + 1, text.len());
                let next = replaced_to(text, n + 1);
                assert(next == part.push(text[n as int]));
                assert(all[m as int] == all.take(m + 1int)[m as int]);
                assert(all[m as int] != '\n');
            } else if n == text.len() {
                assert(m == all.len());
            }
        }
    }
}

/// A text with the line endings of another platform has the same lines, wherever
/// a replacement makes no new pair: no carriage return stands before a pair.
pub proof fn every_line_ending_agrees(text: Seq<char>)
    requires
        forall|i: int| 0 < i && #[trigger] pair_at(text, i) ==> text[i - 1] != '\r',
    ensures
        lines_of(replaced(text)) == lines_of(text),
        replaced(text).len() == 0 <==> text.len() == 0,
{
    lemma_replaced_lines(text, text.len());
    if text.len() > 0 {
        assert(!pair_at(text, text.len() - 1));
    }
}

/// Every newline starts a line, and nothing else does: a text has one line more
/// than it has newlines.
pub proof fn newlines_start_lines(text: Seq<char>, n: nat)
    requires
        n <= text.len(),
    ensures
        lines_to(text, n).len() == 1 + newlines(text, n),
    decreases n,
{
    if n > 0 {
        newlines_start_lines(text, (n - 1) as nat);
    }
}

/// How many of the first `n` characters are newlines.
pub open spec fn newlines(text: Seq<char>, n: nat) -> nat
    decreases n,
{
    if n == 0 {
        0
    } else {
        newlines(text, (n - 1) as nat) + (if text[n - 1] == '\n' {
            1nat
        } else {
            0nat
        })
    }
}

/// The units per em that a face's bytes declare; none where they do not parse
/// as a face.
pub uninterp spec fn face_units(font: Seq<u8>) -> Option<i32>;

/// The glyphs that a line shapes to in a face under a list of features: of
/// each its number, its two advances and its two offsets.
pub uninterp spec fn shaped(
    font: Seq<u8>,
    line: Seq<char>,
    features: Seq<(u32, u32)>,
) -> Option<Seq<(u32, i32, i32, i32, i32)>>;

/// `harfrust::Shaper::units_per_em` on the shaper of a face that
/// `harfrust::FontRef::new` read: `None` where that reading failed, and
/// otherwise a number that the bytes alone decide.
#[verifier::external_body]
fn units_per_em(font: &[u8]) -> (units: Option<i32>)
    ensures
        units == face_units(font@),
{
    let face = harfrust::FontRef::new(font).ok()?;
    let data = harfrust::ShaperData::new(&face);
    Some(data.shaper(&face).build().units_per_em())
}

/// The units per em that a face declares; `None` where its bytes do not read as
/// a face.
pub fn design_units(font_bytes: &[u8]) -> (units: Option<i32>)
    ensures
        units == face_units(font_bytes@),
{
    units_per_em(font_bytes)
}

/// `harfrust::Shaper::shape` on a line, with script and direction read off the
/// text by `guess_segment_properties` and every feature applied to the whole
/// line: glyphs that the face's bytes, the line and the features alone decide.
/// `None` where `harfrust::FontRef::new` cannot read the bytes, which is when
/// they declare no units per em. A feature's value has to fit in sixteen bits.
#[verifier::external_body]
fn shape_line(font: &[u8], line: &str, features: &[(u32, u32)]) -> (glyphs: Option<
    Vec<(u32, i32, i32, i32, i32)>,
>)
    requires
        forall|i: int| 0 <= i < features@.len() ==> (#[trigger] features@[i]).1 <= 0xffff,
    ensures
        match glyphs {
            Some(g) => shaped(font@, line@, features@) == Some(g@),
            None => shaped(font@, line@, features@) is None,
        },
        glyphs is Some <==> face_units(font@) is Some,
{
    let face = harfrust::FontRef::new(font).ok()?;
    let data = harfrust::ShaperData::new(&face);
    let mut text = harfrust::UnicodeBuffer::new();
    text.push_str(line);
    text.guess_segment_properties();
    let list: Vec<harfrust::Feature> = features.iter().map(
        |f| harfrust::Feature::new(harfrust::Tag::from_u32(f.0), f.1, ..),
    ).collect();
    let run = data.shaper(&face).build().shape(text, &list);
    let (infos, places) = (run.glyph_infos(), run.glyph_positions());
    Some(infos.iter().zip(places).map(
        |(i, p)| (i.glyph_id, p.x_advance, p.y_advance, p.x_offset, p.y_offset),
    ).collect())
}

/// A placed glyph of a line, in units of the face.
#[derive(Debug, Clone, Copy, PartialEq, Eq, Structural)]
pub struct Glyph {
    pub id: u32,
    pub x_advance: i32,
    pub y_advance: i32,
    pub x_offset: i32,
    pub y_offset: i32,
}

/// The glyphs of a shaped line.
pub open spec fn glyphs_of(line: Seq<(u32, i32, i32, i32, i32)>) -> Seq<Glyph> {
    line.map_values(
        |g: (u32, i32, i32, i32, i32)|
            Glyph { id: g.0, x_advance: g.1, y_advance: g.2, x_offset: g.3, y_offset: g.4 },
    )
}

/// Name the parts of each glyph of a shaped line.
pub fn place_glyphs(line: &Vec<(u32, i32, i32, i32, i32)>) -> (glyphs: Vec<Glyph>)
    ensures
        glyphs@ == glyphs_of(line@),
{
    let mut glyphs: Vec<Glyph> = Vec::new();
    let n: usize = line.len();
    let mut i: usize = 0;
    while i < n
        invariant
            i <= n,
            n == line@.len(),
            glyphs@ == glyphs_of(line@.take(i as int)),
        decreases n - i,
    {
        let g: (u32, i32, i32, i32, i32) = line[i];
        glyphs.push(
            Glyph { id: g.0, x_advance: g.1, y_advance: g.2, x_offset: g.3, y_offset: g.4 },
        );
        i = i + 1;
        proof {
            assert(glyphs@ =~= glyphs_of(line@.take(i as int)));
        }
    }
    proof {
        assert(line@.take(n as int) =~= line@);
    }
    glyphs
}

/// A shaped text.
#[derive(Debug)]
pub struct Layout {
    /// The units of the face that make an em; above zero.
    pub units_per_em: i32,
    /// The lines from top to bottom. An empty line has no glyphs and still
    /// takes its place: a blank line is a deliberate gap.
    pub lines: Vec<Option<Vec<Glyph>>>,
}

/// Whether a line of a layout is the shaped `text`.
pub open spec fn shapes_to(
    font: Seq<u8>,
    text: Seq<char>,
    features: Seq<(u32, u32)>,
    line: Option<Vec<Glyph>>,
) -> bool {
    match line {
        None => text.len() == 0,
        Some(glyphs) => {
            &&& text.len() > 0
            &&& shaped(font, text, features) matches Some(g) && glyphs@ == glyphs_of(g)
        },
    }
}

impl Layout {
    /// Whether this is the layout of a text in a face.
    pub open spec fn lays_out(self, font: Seq<u8>, text: Seq<char>, style: RunStyle) -> bool {
        &&& face_units(font) == Some(self.units_per_em)
        &&& self.units_per_em > 0
        &&& self.lines@.len() == lines_of(text).len()
        &&& forall|i: int|
            0 <= i < self.lines@.len() ==> shapes_to(
                font,
                lines_of(text)[i],
                style.features(),
                #[trigger] self.lines@[i],
            )
    }
}

/// Whether there is something to set: a text, at a size that is a positive
/// number.
pub open spec fn settable(text: Seq<char>, size_px: Scalar) -> bool {
    text.len() > 0 && usable(size_px)
}

/// Shape a text line by line. `None` where there is nothing to set, or where the
/// bytes are no face, or a face without an em.
pub fn lay_out(font_bytes: &[u8], text: &str, size_px: Scalar, style: RunStyle) -> (layout: Option<
    Layout,
>)
    ensures
        layout is Some <==> settable(text@, size_px) && (face_units(font_bytes@) matches Some(u)
            && u > 0),
        layout matches Some(l) ==> l.lays_out(font_bytes@, text@, style),
{
    let ghost (font, whole) = (font_bytes@, text@);
    if text.unicode_len() == 0 || !is_usable(size_px) {
        return None;
    }
    let units: i32 = match units_per_em(font_bytes) {
        Some(u) => u,
        None => {
            return None;
        },
    };
    if units <= 0 {
        return None;
    }
    let texts_of: Vec<String> = split_lines(text);
    let features: Vec<(u32, u32)> = style.feature_list();
    let n: usize = texts_of.len();
    let mut lines: Vec<Option<Vec<Glyph>>> = Vec::new();
    let mut i: usize = 0;
    while i < n
        invariant
            n == texts_of@.len(),
            i <= n,
            font == font_bytes@,
            texts(texts_of@) == lines_of(whole),
            features@ == style.features(),
            face_units(font) is Some,
            lines@.len() == i,
            forall|j: int|
                0 <= j < i ==> shapes_to(
                    font,
                    lines_of(whole)[j],
                    style.features(),
                    #[trigger] lines@[j],
                ),
        decreases n - i,
    {
        let line: &str = texts_of[i].as_str();
        proof {
            assert(line@ == texts(texts_of@)[i as int]);
        }
        if line.unicode_len() == 0 {
            lines.push(None);
        } else {
            match shape_line(font_bytes, line, features.as_slice()) {
                Some(g) => {
                    lines.push(Some(place_glyphs(&g)));
                },
                None => {
                    return None;
                },
            }
        }
        i = i + 1;
    }
    Some(Layout { units_per_em: units, lines })
}

/// The face's own line height: its metrics, where they are usable, else a
/// stated multiple of the size.
pub open spec fn own_height(face_height: Scalar, default_height: Scalar) -> Scalar {
    if usable(face_height) {
        face_height
    } else {
        default_height
    }
}

/// Whether a run is the raster of a sheet: of extent zero where the sheet has no
/// ink, which is different from a failure.
pub open spec fn rasterized<Z: Fn(&Vec<Seg>, Bounds) -> RasterRun>(
    raster: Z,
    sheet: Sheet,
    run: RasterRun,
) -> bool {
    &&& run.missing == sheet.missing
    &&& if sheet.empty() {
        run.width == 0 && run.height == 0 && run.coverage@.len() == 0 && run.dx == 0 && run.dy == 0
    } else {
        exists|segs: Vec<Seg>, r: RasterRun|
            #![trigger raster.ensures((&segs, sheet.bounds), r)]
            segs@ == sheet.segs && raster.ensures((&segs, sheet.bounds), r) && run == (RasterRun {
                missing: sheet.missing,
                ..r
            })
    }
}

/// Whether a text was set: shaped to a layout, placed, and inked on a sheet.
pub open spec fn was_set<
    S: Fn(Point, Glyph) -> Point,
    G: Fn(Scalar, Scalar) -> (Scalar, Scalar),
    B: Fn(Scalar, usize) -> Scalar,
    O: Fn(Point, Glyph) -> Point,
    D: Fn(u16, Point) -> Outline,
    R: Fn(bool, Scalar) -> Option<(Scalar, Scalar)>,
    E: Fn(Scalar, Scalar) -> Scalar,
    H: Fn(Point) -> Scalar,
>(
    font: Seq<u8>,
    text: Seq<char>,
    style: RunStyle,
    auto_leading: Scalar,
    step: S,
    slack: G,
    baseline: B,
    anchor: O,
    outline: D,
    rule: R,
    reach: E,
    shear: H,
    layout: Layout,
    placement: Placement,
    sheet: Sheet,
) -> bool {
    &&& layout.lays_out(font, text, style)
    &&& crate::typeset::placed(
        layout.lines@,
        style,
        auto_leading,
        step,
        slack,
        baseline,
        anchor,
        placement,
    )
    &&& crate::typeset::lines_drawn(
        layout.lines@,
        style,
        outline,
        rule,
        reach,
        shear,
        placement.lines@,
        sheet,
    )
}

proof fn lemma_set_alike<
    S: Fn(Point, Glyph) -> Point,
    G: Fn(Scalar, Scalar) -> (Scalar, Scalar),
    B: Fn(Scalar, usize) -> Scalar,
    O: Fn(Point, Glyph) -> Point,
    D: Fn(u16, Point) -> Outline,
    R: Fn(bool, Scalar) -> Option<(Scalar, Scalar)>,
    E: Fn(Scalar, Scalar) -> Scalar,
    H: Fn(Point) -> Scalar,
>(
    font: Seq<u8>,
    text: Seq<char>,
    style: RunStyle,
    other: Seq<char>,
    other_style: RunStyle,
    auto_leading: Scalar,
    step: S,
    slack: G,
    baseline: B,
    anchor: O,
    outline: D,
    rule: R,
    reach: E,
    shear: H,
    layout: Layout,
    placement: Placement,
    sheet: Sheet,
)
    requires
        lines_of(text) == lines_of(other),
        style.features() == other_style.features(),
        crate::typeset::same_setting(style, other_style, auto_leading),
        was_set(
            font,
            text,
            style,
            auto_leading,
            step,
            slack,
            baseline,
            anchor,
            outline,
            rule,
            reach,
            shear,
            layout,
            placement,
            sheet,
        ),
    ensures
        was_set(
            font,
            other,
            other_style,
            auto_leading,
            step,
            slack,
            baseline,
            anchor,
            outline,
            rule,
            reach,
            shear,
            layout,
            placement,
            sheet,
        ),
{
    crate::typeset::like_styles_place_alike(
        layout.lines@,
        style,
        other_style,
        auto_leading,
        step,
        slack,
        baseline,
        anchor,
        placement,
    );
    crate::typeset::like_styles_ink_alike(
        layout.lines@,
        style,
        other_style,
        outline,
        rule,
        reach,
        shear,
        placement.lines@,
        sheet,
    );
}

/// A text is set as the text with its line endings replaced, and a leading that
/// is not a positive number as none: what can be set is the same, and so is
/// every way of setting it. Texts in which a replacement makes a new pair are
/// left out.
pub proof fn line_endings_and_unusable_leading_change_nothing<
    S: Fn(Point, Glyph) -> Point,
    G: Fn(Scalar, Scalar) -> (Scalar, Scalar),
    B: Fn(Scalar, usize) -> Scalar,
    O: Fn(Point, Glyph) -> Point,
    D: Fn(u16, Point) -> Outline,
    R: Fn(bool, Scalar) -> Option<(Scalar, Scalar)>,
    E: Fn(Scalar, Scalar) -> Scalar,
    H: Fn(Point) -> Scalar,
>(
    font: Seq<u8>,
    text: Seq<char>,
    size_px: Scalar,
    style: RunStyle,
    auto_leading: Scalar,
    step: S,
    slack: G,
    baseline: B,
    anchor: O,
    outline: D,
    rule: R,
    reach: E,
    shear: H,
    layout: Layout,
    placement: Placement,
    sheet: Sheet,
)
    requires
        forall|i: int| 0 < i && #[trigger] pair_at(text, i) ==> text[i - 1] != '\r',
    ensures
        settable(text, size_px) <==> settable(replaced(text), size_px),
        was_set(
            font,
            text,
            style,
            auto_leading,
            step,
            slack,
            baseline,
            anchor,
            outline,
            rule,
            reach,
            shear,
            layout,
            placement,
            sheet,
        ) <==> was_set(
            font,
            replaced(text),
            style.leading_dropped(),
            auto_leading,
            step,
            slack,
            baseline,
            anchor,
            outline,
            rule,
            reach,
            shear,
            layout,
            placement,
            sheet,
        ),
{
    let (other, plain) = (replaced(text), style.leading_dropped());
    every_line_ending_agrees(text);
    if was_set(
        font,
        text,
        style,
        auto_leading,
        step,
        slack,
        baseline,
        anchor,
        outline,
        rule,
        reach,
        shear,
        layout,
        placement,
        sheet,
    ) {
        lemma_set_alike(
            font,
            text,
            style,
            other,
            plain,
            auto_leading,
            step,
            slack,
            baseline,
            anchor,
            outline,
            rule,
            reach,
            shear,
            layout,
            placement,
            sheet,
        );
    }
    if was_set(
        font,
        other,
        plain,
        auto_leading,
        step,
        slack,
        baseline,
        anchor,
        outline,
        rule,
        reach,
        shear,
        layout,
        placement,
        sheet,
    ) {
        lemma_set_alike(
            font,
            other,
            plain,
            text,
            style,
            auto_leading,
            step,
            slack,
            baseline,
            anchor,
            outline,
            rule,
            reach,
            shear,
            layout,
            placement,
            sheet,
        );
    }
}

/// Shape a text, place its lines, collect their ink and rasterize it. `None`
/// where there is nothing to set or the bytes are no face with an em. A run
/// without ink is a result, and different from a failure.
///
/// `face_height` is the line height that the face's metrics give and
/// `default_height` the one to use where they give none. `raster` draws segments
/// within a box; the other functions are those of [`place`] and [`ink`].
pub fn rasterize_run<
    S: Fn(Point, Glyph) -> Point,
    G: Fn(Scalar, Scalar) -> (Scalar, Scalar),
    B: Fn(Scalar, usize) -> Scalar,
    O: Fn(Point, Glyph) -> Point,
    D: Fn(u16, Point) -> Outline,
    R: Fn(bool, Scalar) -> Option<(Scalar, Scalar)>,
    E: Fn(Scalar, Scalar) -> Scalar,
    H: Fn(Point) -> Scalar,
    Z: Fn(&Vec<Seg>, Bounds) -> RasterRun,
>(
    font_bytes: &[u8],
    text: &str,
    size_px: Scalar,
    style: RunStyle,
    face_height: Scalar,
    default_height: Scalar,
    step: &S,
    slack: &G,
    baseline: &B,
    anchor: &O,
    outline: &D,
    rule: &R,
    reach: &E,
    shear: &H,
    raster: &Z,
) -> (run: Option<RasterRun>)
    requires
        forall|p: Point, g: Glyph| #[trigger] step.requires((p, g)),
        forall|a: Scalar, b: Scalar| #[trigger] slack.requires((a, b)),
        forall|a: Scalar, i: usize| #[trigger] baseline.requires((a, i)),
        forall|p: Point, g: Glyph| #[trigger] anchor.requires((p, g)),
        forall|n: u16, p: Point| #[trigger] outline.requires((n, p)),
        forall|b: bool, y: Scalar| #[trigger] rule.requires((b, y)),
        forall|a: Scalar, b: Scalar| #[trigger] reach.requires((a, b)),
        forall|p: Point| #[trigger] shear.requires((p,)),
        forall|segs: Vec<Seg>, b: Bounds| #[trigger] raster.requires((&segs, b)),
        forall|segs: Vec<Seg>, b: Bounds, r: RasterRun| #[trigger]
            raster.ensures((&segs, b), r) ==> r.sized(),
    ensures
        run matches Some(r) ==> r.sized(),
        run is Some <==> settable(text@, size_px) && (face_units(font_bytes@) matches Some(u) && u
            > 0),
        run matches Some(r) ==> exists|l: Layout, p: Placement, s: Sheet| #[trigger]
            was_set(
                font_bytes@,
                text@,
                style,
                own_height(face_height, default_height),
                *step,
                *slack,
                *baseline,
                *anchor,
                *outline,
                *rule,
                *reach,
                *shear,
                l,
                p,
                s,
            ) && rasterized(*raster, s, r),
{
    let layout: Layout = match lay_out(font_bytes, text, size_px, style) {
        Some(l) => l,
        None => {
            return None;
        },
    };
    let auto_leading: Scalar = if is_usable(face_height) {
        face_height
    } else {
        default_height
    };
    let placement: Placement = place(
        &layout.lines,
        style,
        auto_leading,
        step,
        slack,
        baseline,
        anchor,
    );
    let sheet: Ink = ink(&layout.lines, style, &placement, outline, rule, reach, shear);
    let segs: &Vec<Seg> = sheet.collector.segs();
    let bounds: Bounds = sheet.collector.bounds();
    let run: RasterRun = if segs.len() == 0 || bounds.max.x.lt(bounds.min.x) {
        RasterRun::blank(sheet.missing)
    } else {
        let r: RasterRun = raster(segs, bounds);
        RasterRun {
            width: r.width,
            height: r.height,
            coverage: r.coverage,
            dx: r.dx,
            dy: r.dy,
            missing: sheet.missing,
        }
    };
    proof {
        assert(was_set(
            font_bytes@,
            text@,
            style,
            own_height(face_height, default_height),
            *step,
            *slack,
            *baseline,
            *anchor,
            *outline,
            *rule,
            *reach,
            *shear,
            layout,
            placement,
            sheet@,
        ));
        assert(rasterized(*raster, sheet@, run));
    }
    Some(run)
}

impl RasterRun {
    /// Whether the field has a byte per pixel, and a width where it has a height.
    pub open spec fn sized(self) -> bool {
        &&& self.coverage@.len() == self.width * self.height
        &&& self.width == 0 <==> self.height == 0
    }

    /// A run without ink.
    pub fn blank(missing: usize) -> (run: RasterRun)
        ensures
            run.width == 0,
            run.height == 0,
            run.coverage@.len() == 0,
            run.dx == 0,
            run.dy == 0,
            run.missing == missing,
    {
        RasterRun { width: 0, height: 0, coverage: Vec::new(), dx: 0, dy: 0, missing }
    }
}

/// The first `n` lines with a newline between them.
pub open spec fn joined(lines: Seq<Seq<char>>, n: nat) -> Seq<char>
    decreases n,
{
    if n == 0 {
        Seq::empty()
    } else if n == 1 {
        lines[0]
    } else {
        joined(lines, (n - 1) as nat).push('\n') + lines[n - 1]
    }
}

proof fn lemma_joined_same(a: Seq<Seq<char>>, b: Seq<Seq<char>>, n: nat)
    requires
        n <= a.len(),
        n <= b.len(),
        forall|i: int| 0 <= i < n ==> #[trigger] a[i] == b[i],
    ensures
        joined(a, n) == joined(b, n),
    decreases n,
{
    if n > 1 {
        lemma_joined_same(a, b, (n - 1) as nat);
        assert(a[n - 1] == b[n - 1]);
    } else if n == 1 {
        assert(a[0] == b[0]);
    }
}

/// Splitting a text loses nothing but the newlines: joined again with newlines, the
/// lines of a text are the text, a lone carriage return among it, where none stands
/// right before a newline.
pub proof fn the_lines_of_a_text_join_to_it(text: Seq<char>, n: nat)
    requires
        n <= text.len(),
        forall|i: int| !(#[trigger] pair_at(text, i)),
    ensures
        lines_to(text, n).len() > 0,
        joined(lines_to(text, n), lines_to(text, n).len()) == text.take(n as int),
        forall|i: int, k: int|
            0 <= i < lines_to(text, n).len() && 0 <= k < lines_to(text, n)[i].len()
                ==> #[trigger] lines_to(text, n)[i][k] != '\n',
    decreases n,
{
    if n == 0 {
        assert(text.take(0) =~= Seq::empty());
    } else {
        the_lines_of_a_text_join_to_it(text, (n - 1) as nat);
        let rest = lines_to(text, (n - 1) as nat);
        let all = lines_to(text, n);
        let m = rest.len();
        let c = text[n - 1];
        assert(text.take(n as int) =~= text.take(n - 1).push(c));
        assert(!pair_at(text, n - 1));
        if c == '\n' {
            lemma_joined_same(rest, all, m);
            assert(joined(all, all.len()) =~= joined(rest, m).push('\n'));
            assert forall|i: int, k: int| 0 <= i < all.len() && 0 <= k < all[i].len() implies #[trigger] all[i][k]
                != '\n' by {
                assert(i < m);
                assert(all[i] == rest[i]);
            }
        } else {
            assert(all == rest.drop_last().push(rest.last().push(c)));
            lemma_joined_same(rest, all, (m - 1) as nat);
            assert(all[m - 1] == rest[m - 1].push(c));
            if m == 1 {
                assert(joined(all, m) =~= joined(rest, m).push(c));
            } else {
                assert(joined(all, m) =~= joined(rest, m).push(c));
            }
            assert forall|i: int, k: int| 0 <= i < all.len() && 0 <= k < all[i].len() implies #[trigger] all[i][k]
                != '\n' by {
                if i < m - 1 {
                    assert(all[i] == rest[i]);
                } else if k < rest[m - 1].len() {
                    assert(all[i][k] == rest[m - 1][k]);
                }
            }
        }
    }
}

/// A glyph keeps its parts under their names, in the order of the line.
pub proof fn a_glyph_keeps_its_parts(line: Seq<(u32, i32, i32, i32, i32)>, k: int)
    requires
        0 <= k < line.len(),
    ensures
        glyphs_of(line).len() == line.len(),
        ({
            let g = glyphs_of(line)[k];
            (g.id, g.x_advance, g.y_advance, g.x_offset, g.y_offset) == line[k]
        }),
{
}

/// A face's ligatures are used unless the style switches them off, and then only the
/// standard ones, `liga`, are set to nothing.
pub proof fn ligatures_are_used_unless_switched_off(style: RunStyle)
    ensures
        style.ligatures ==> style.features().len() == 0,
        !style.ligatures ==> style.features().len() == 1 && style.features()[0].0 == ('l' as u32)
            * 0x100_0000 + ('i' as u32) * 0x1_0000 + ('g' as u32) * 0x100 + ('a' as u32)
            && style.features()[0].1 == 0,
{
}

/// A leading that is a positive number is the height of a line; any other, or none,
/// leaves the face's own.
pub proof fn a_leading_is_used_where_it_is_a_height(style: RunStyle, auto: Scalar)
    ensures
        style.leading_px matches Some(l) && 0 < l.rank() < 0x7f80_0000 ==> style.line_height(auto)
            == style.leading_px->0,
        style.leading_px matches Some(l) && !(0 < l.rank() < 0x7f80_0000) ==> style.line_height(
            auto,
        ) == auto,
        style.leading_px is None ==> style.line_height(auto) == auto,
{
}

/// A face's own line height is used where it is a positive number.
pub proof fn a_face_height_is_used_where_it_is_one(face: Scalar, default: Scalar)
    ensures
        0 < face.rank() < 0x7f80_0000 ==> own_height(face, default) == face,
        !(0 < face.rank() < 0x7f80_0000) ==> own_height(face, default) == default,
{
}

/// A run is what the rasterizer makes of all that was drawn, in the box that holds it;
/// what was counted as missing is told with it, and where nothing was drawn the run is
/// empty.
pub proof fn a_run_is_the_raster_of_its_sheet<Z: Fn(&Vec<Seg>, Bounds) -> RasterRun>(
    raster: Z,
    sheet: Sheet,
    run: RasterRun,
) -> (made: (Vec<Seg>, RasterRun))
    requires
        rasterized(raster, sheet, run),
    ensures
        run.missing == sheet.missing,
        sheet.empty() ==> run.width == 0 && run.height == 0 && run.coverage@.len() == 0,
        !sheet.empty() ==> made.0@ == sheet.segs && raster.ensures(
            (&made.0, sheet.bounds),
            made.1,
        ) && run.width == made.1.width && run.height == made.1.height && run.coverage
            == made.1.coverage && run.dx == made.1.dx && run.dy == made.1.dy,
{
    let (segs, r) = choose|segs: Vec<Seg>, r: RasterRun|
        #![trigger raster.ensures((&segs, sheet.bounds), r)]
        segs@ == sheet.segs && raster.ensures((&segs, sheet.bounds), r) && run == (RasterRun {
            missing: sheet.missing,
            ..r
        });
    (segs, r)
}

} // verus!
