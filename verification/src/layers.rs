//! The layer stack: ordered layers over one canvas, and the rules every
//! operation on them keeps.
//!
//! A document always has at least one layer, one of them is active, ids are
//! never reused, and every layer's pixels and mask have the canvas extent. The
//! undo journal and the device that blends pixels live with the host; what is
//! recorded, restored and blended is decided here.
use crate::adjust::AdjustParams;
use crate::blend::BlendMode;
use crate::coverage::{Region, SelectionCoverage};
use crate::errors::{unsupported, IngestError};
use crate::ingest::{canvas_bytes, mis_sized_text};
use crate::pixels::Pixels;
use crate::scalar::{Scalar, ONE, ZERO};
use crate::strings::{push_decimal, push_len};
use std::sync::Arc;
use vstd::prelude::*;

verus! {

/// The name of the layer an ingested image becomes.
pub const BACKGROUND_LAYER_NAME: &'static str = "Background";

/// The preserved original behind a smart object, and the scale its cached
/// pixels were rendered at.
#[derive(Debug)]
pub struct SmartSource {
    /// The original, at its own resolution. No render ever replaces it.
    pub rgba: Pixels,
    pub width: u32,
    pub height: u32,
    /// 1 is the source's own size.
    pub scale: Scalar,
}

impl Clone for SmartSource {
    fn clone(&self) -> (copy: Self)
        ensures
            copy == *self,
    {
        SmartSource {
            rgba: self.rgba.clone(),
            width: self.width,
            height: self.height,
            scale: self.scale,
        }
    }
}

/// What a layer contributes to the fold.
#[derive(Debug)]
pub enum LayerKind {
    /// Canvas-extent pixels of its own.
    Pixels,
    /// No pixels: the adjustment chain, run over the backdrop beneath.
    Adjustment(Box<AdjustParams>),
    /// A smart object: the layer's pixels are a cached render of a preserved
    /// source.
    Smart(Box<SmartSource>),
}

impl Clone for LayerKind {
    fn clone(&self) -> (copy: Self)
        ensures
            copy == *self,
    {
        match self {
            LayerKind::Pixels => LayerKind::Pixels,
            LayerKind::Adjustment(p) => LayerKind::Adjustment(Box::new(**p)),
            LayerKind::Smart(s) => LayerKind::Smart(Box::new((**s).clone())),
        }
    }
}

/// One layer of the stack.
#[derive(Debug)]
pub struct Layer {
    pub kind: LayerKind,
    /// Stable across reorders.
    pub id: u32,
    pub name: String,
    pub visible: bool,
    /// A locked layer refuses pixel edits; its properties stay editable.
    pub locked: bool,
    /// 0 to 1.
    pub opacity: Scalar,
    pub blend: BlendMode,
    /// Canvas-extent straight RGBA.
    pub rgba: Pixels,
    /// The layer mask; `None` is fully covered everywhere.
    pub mask: Option<Arc<SelectionCoverage>>,
    /// A disabled mask is kept, not discarded.
    pub mask_enabled: bool,
    /// Clipped to the layer beneath: contributes only where its base is
    /// opaque.
    pub clipped: bool,
}

impl Clone for Layer {
    fn clone(&self) -> (copy: Self)
        ensures
            copy == *self,
    {
        Layer {
            kind: self.kind.clone(),
            id: self.id,
            name: self.name.clone(),
            visible: self.visible,
            locked: self.locked,
            opacity: self.opacity,
            blend: self.blend,
            rgba: self.rgba.clone(),
            mask: match &self.mask {
                Some(m) => Some(Arc::clone(m)),
                None => None,
            },
            mask_enabled: self.mask_enabled,
            clipped: self.clipped,
        }
    }
}

/// Whether every whole pixel of an RGBA8 buffer is fully transparent.
pub open spec fn transparent(rgba: Seq<u8>) -> bool {
    forall|p: int| 0 <= p < rgba.len() / 4 ==> #[trigger] rgba[4 * p + 3] == 0
}

/// Whether every whole pixel of a 16-bit buffer is fully transparent.
pub open spec fn transparent16(rgba: Seq<u8>) -> bool {
    forall|p: int|
        0 <= p < rgba.len() / 8 ==> #[trigger] rgba[8 * p + 6] == 0 && rgba[8 * p + 7] == 0
}

/// The alpha bytes of an RGBA8 buffer: a clip base.
pub open spec fn alphas(rgba: Seq<u8>) -> Seq<u8> {
    Seq::new(rgba.len() / 4, |p: int| rgba[4 * p + 3])
}

/// A plate's alpha channel, one byte per pixel.
pub fn alpha_of(rgba: &[u8]) -> (alpha: Vec<u8>)
    ensures
        alpha@ == alphas(rgba@),
{
    let len: usize = rgba.len();
    let n: usize = len / 4;
    let mut out: Vec<u8> = Vec::new();
    let mut i: usize = 0;
    while i < n
        invariant
            len == rgba@.len(),
            n == len / 4,
            i <= n,
            out@.len() == i,
            forall|j: int| 0 <= j < i ==> out@[j] == #[trigger] alphas(rgba@)[j],
        decreases n - i,
    {
        out.push(rgba[4 * i + 3]);
        i = i + 1;
    }
    proof {
        assert(out@ =~= alphas(rgba@));
    }
    out
}

/// Is every texel of a straight RGBA8 buffer fully transparent? Such a layer
/// is the identity in the fold.
pub fn is_fully_transparent(rgba: &[u8]) -> (yes: bool)
    ensures
        yes <==> transparent(rgba@),
{
    let len: usize = rgba.len();
    let n: usize = len / 4;
    let mut i: usize = 0;
    while i < n
        invariant
            len == rgba@.len(),
            n == len / 4,
            i <= n,
            forall|p: int| 0 <= p < i ==> #[trigger] rgba@[4 * p + 3] == 0,
        decreases n - i,
    {
        if rgba[4 * i + 3] != 0 {
            assert(rgba@[4 * (i as int) + 3] != 0);
            return false;
        }
        i = i + 1;
    }
    true
}

fn is_fully_transparent16(rgba: &[u8]) -> (yes: bool)
    ensures
        yes <==> transparent16(rgba@),
{
    let len: usize = rgba.len();
    let n: usize = len / 8;
    let mut i: usize = 0;
    while i < n
        invariant
            len == rgba@.len(),
            n == len / 8,
            i <= n,
            forall|p: int|
                0 <= p < i ==> #[trigger] rgba@[8 * p + 6] == 0 && rgba@[8 * p + 7] == 0,
        decreases n - i,
    {
        if rgba[8 * i + 6] != 0 || rgba[8 * i + 7] != 0 {
            assert(!(rgba@[8 * (i as int) + 6] == 0 && rgba@[8 * (i as int) + 7] == 0));
            return false;
        }
        i = i + 1;
    }
    true
}

/// Whether a pixel buffer of either depth is fully transparent.
pub open spec fn blank(px: Pixels) -> bool {
    if px.sample_depth() is U16 {
        transparent16(px.stored())
    } else {
        transparent(px.stored())
    }
}

/// Whether a pixel buffer of either depth is fully transparent.
pub fn is_blank(px: &Pixels) -> (yes: bool)
    ensures
        yes <==> blank(*px),
{
    if px.is_16bit() {
        is_fully_transparent16(px.raw())
    } else {
        is_fully_transparent(px.raw())
    }
}

/// Two coverages multiply: `a·b / 255`, rounded.
pub open spec fn times(a: u8, b: u8) -> u8 {
    ((a * b + 127) / 255) as u8
}

fn multiply(a: u8, b: u8) -> (v: u8)
    ensures
        v == times(a, b),
{
    proof {
        assert(0 <= a * b <= 255 * 255) by (nonlinear_arith)
            requires
                0 <= a <= 255,
                0 <= b <= 255,
        ;
    }
    ((a as u32 * b as u32 + 127) / 255) as u8
}

/// A layer's own coverage and its clip base, multiplied; `None` where neither
/// exists.
pub open spec fn combined(own: Option<Seq<u8>>, clip: Option<Seq<u8>>) -> Option<Seq<u8>> {
    match (own, clip) {
        (None, None) => None,
        (Some(a), None) => Some(a),
        (None, Some(b)) => Some(b),
        (Some(a), Some(b)) => Some(Seq::new(a.len(), |i: int| times(a[i], b[i]))),
    }
}

/// The cells of an optional shared coverage.
pub open spec fn cells_of(cov: Option<Arc<SelectionCoverage>>) -> Option<Seq<u8>> {
    match cov {
        Some(c) => Some(c.cells()),
        None => None,
    }
}

/// A layer's own coverage and its clip base, multiplied. Returning `None` when
/// neither exists keeps the unmasked fast path.
pub fn effective_coverage(
    own: Option<&Arc<SelectionCoverage>>,
    clip: Option<&Vec<u8>>,
    w: u32,
    h: u32,
) -> (coverage: Option<Arc<SelectionCoverage>>)
    requires
        own matches Some(c) ==> c.columns() == w && c.rows() == h,
        clip matches Some(b) ==> b@.len() == w * h,
    ensures
        cells_of(coverage) == combined(
            match own {
                Some(c) => Some(c.cells()),
                None => None,
            },
            match clip {
                Some(b) => Some(b@),
                None => None,
            },
        ),
        coverage matches Some(c) ==> c.columns() == w && c.rows() == h,
{
    match (own, clip) {
        (None, None) => None,
        (Some(cov), None) => Some(Arc::clone(cov)),
        (None, Some(base)) => {
            let copy: Vec<u8> = base.clone();
            proof {
                assert(copy@ =~= base@);
            }
            match SelectionCoverage::from_data(w, h, copy) {
                Some(c) => Some(Arc::new(c)),
                None => None,
            }
        },
        (Some(cov), Some(base)) => {
            let cells: &[u8] = cov.data();
            let mut data: Vec<u8> = Vec::new();
            let mut i: usize = 0;
            while i < cells.len()
                invariant
                    cells@.len() == base@.len(),
                    i <= cells@.len(),
                    data@.len() == i,
                    forall|j: int| 0 <= j < i ==> #[trigger] data@[j] == times(cells@[j], base@[j]),
                decreases cells@.len() - i,
            {
                data.push(multiply(cells[i], base[i]));
                i = i + 1;
            }
            proof {
                assert(data@ =~= combined(Some(cells@), Some(base@))->0);
            }
            match SelectionCoverage::from_data(w, h, data) {
                Some(c) => Some(Arc::new(c)),
                None => None,
            }
        },
    }
}

/// Coverages confine, they never add: a product is at most either factor, full
/// cover changes nothing and no cover hides everything.
pub proof fn coverages_confine(a: u8, b: u8)
    ensures
        times(a, b) <= a,
        times(a, b) <= b,
        times(a, b) == times(b, a),
        times(255, b) == b,
        times(a, 255) == a,
        times(0, b) == 0,
{
    assert(a * b <= 255 * a && a * b <= 255 * b && a * b == b * a && 0 <= a * b) by (nonlinear_arith)
        requires
            0 <= a <= 255,
            0 <= b <= 255,
    ;
    assert(255u8 * b == 255 * b);
    assert(a * 255u8 == 255 * a);
    assert(0u8 * b == 0) by (nonlinear_arith);
}

impl Layer {
    /// Whether the layer carries pixels of its own. A smart object's cached
    /// render is pixels as far as the fold is concerned.
    pub open spec fn pixel_layer(self) -> bool {
        self.kind is Pixels || self.kind is Smart
    }

    /// Whether the properties let the layer contribute: visible, and not at
    /// zero opacity.
    pub open spec fn on(self) -> bool {
        self.visible && crate::scalar::zero().below(self.opacity)
    }

    /// The mask that applies: none when there is none, when it is disabled, or
    /// when it covers everything.
    pub open spec fn applied_mask(self) -> Option<Arc<SelectionCoverage>> {
        match self.mask {
            Some(m) if self.mask_enabled && !m.all_one() => Some(m),
            _ => None,
        }
    }

    /// Whether nothing modifies the layer's pixels on their way through: they
    /// are its own, opaque, blended normally and unmasked.
    pub open spec fn unmodified(self) -> bool {
        &&& self.pixel_layer()
        &&& (crate::scalar::one().below(self.opacity) || self.opacity.equals(crate::scalar::one()))
        &&& self.blend is Normal
        &&& self.applied_mask() is None
    }

    /// Whether the layer is a pass-through: unmodified, and not confined to a
    /// layer beneath.
    pub open spec fn plain(self) -> bool {
        self.unmodified() && !self.clipped
    }

    /// Whether the pixels and the mask have the canvas extent.
    pub open spec fn fits(self, w: u32, h: u32) -> bool {
        &&& self.rgba.covers(w, h)
        &&& self.mask matches Some(m) ==> m.columns() == w && m.rows() == h
    }

    /// The blend's wire name.
    pub fn blend_name(&self) -> (name: &'static str)
        ensures
            name@ == self.blend.wire(),
    {
        self.blend.name()
    }

    /// Are this layer's properties ones that let it contribute? A hidden layer
    /// or one at zero opacity contributes exactly nothing.
    pub fn enabled(&self) -> (on: bool)
        ensures
            on <==> self.on(),
    {
        let zero: Scalar = Scalar { bits: ZERO };
        self.visible && zero.lt(self.opacity)
    }

    /// Is this layer a plain pass-through, the shape that makes a one-layer
    /// composite the identity?
    pub fn is_plain(&self) -> (plain: bool)
        ensures
            plain <==> self.plain(),
    {
        self.is_unmodified() && !self.clipped
    }

    /// Does nothing modify this layer's pixels on their way through?
    pub fn is_unmodified(&self) -> (unmodified: bool)
        ensures
            unmodified <==> self.unmodified(),
    {
        self.is_pixels() && self.opacity.ge(Scalar { bits: ONE }) && self.blend == BlendMode::Normal
            && self.live_mask().is_none()
    }

    /// Does this layer carry pixels of its own?
    pub fn is_pixels(&self) -> (yes: bool)
        ensures
            yes <==> self.pixel_layer(),
    {
        matches!(self.kind, LayerKind::Pixels | LayerKind::Smart(_))
    }

    /// The preserved source behind a smart object.
    pub fn smart_source(&self) -> (source: Option<&SmartSource>)
        ensures
            source is Some <==> self.kind is Smart,
            source matches Some(s) ==> *s == *self.kind->Smart_0,
    {
        match &self.kind {
            LayerKind::Smart(s) => Some(s),
            _ => None,
        }
    }

    /// The adjustment parameters when this is an adjustment layer.
    pub fn adjust_params(&self) -> (params: Option<&AdjustParams>)
        ensures
            params is Some <==> self.kind is Adjustment,
            params matches Some(p) ==> *p == *self.kind->Adjustment_0,
    {
        match &self.kind {
            LayerKind::Adjustment(p) => Some(p),
            _ => None,
        }
    }

    /// The mask that actually applies.
    pub fn live_mask(&self) -> (mask: Option<&Arc<SelectionCoverage>>)
        ensures
            mask is Some <==> self.applied_mask() is Some,
            mask matches Some(m) ==> Some(*m) == self.applied_mask(),
    {
        if !self.mask_enabled {
            return None;
        }
        match &self.mask {
            Some(m) => if m.is_all_one() {
                None
            } else {
                Some(m)
            },
            None => None,
        }
    }
}

/// The undo and redo readout a panel shows.
#[derive(Debug, Clone, Copy, PartialEq, Eq, Structural)]
pub struct HistoryStats {
    pub can_undo: bool,
    pub can_redo: bool,
    pub depth: usize,
    pub redo_depth: usize,
    pub bytes: usize,
    pub max_bytes: usize,
    pub max_entries: usize,
    /// Entries evicted by the bound so far.
    pub dropped: u64,
    pub generation: u64,
}

/// What an operation asks of the journal.
#[derive(Debug, Clone, Copy, PartialEq, Eq, Structural)]
pub enum JournalAction {
    Keep,
    /// The entries speak of pixels that no longer exist.
    Clear,
}

/// A pixel edit as the journal records it.
#[derive(Debug)]
pub struct EditRecord {
    pub label: String,
    /// The stable id of the layer that was edited.
    pub scope: u64,
    /// The damage, clipped to the canvas.
    pub region: Region,
    /// The layer's pixels before the edit.
    pub before: Pixels,
}

/// A step of the journal: the layer it belongs to, its label, and the pixels
/// the journal restored for it.
#[derive(Debug)]
pub struct HistoryStep {
    pub scope: u64,
    pub label: String,
    pub pixels: Pixels,
}

/// An imported PSD layer plate.
#[derive(Debug)]
pub struct Plate {
    pub name: String,
    pub hidden: bool,
    pub opacity: u8,
    pub blend_key: [u8; 4],
    pub rgba: Vec<u8>,
}

/// An ordered stack of layers over one canvas.
#[derive(Debug)]
pub struct LayerStack {
    width: u32,
    height: u32,
    /// Bottom first.
    layers: Vec<Layer>,
    active: usize,
    next_id: u32,
}

/// A layer of pixels made smart: its pixels are its source too, at full size.
pub open spec fn smart_of(l: Layer, width: u32, height: u32) -> Layer {
    Layer {
        kind: LayerKind::Smart(
            Box::new(SmartSource { rgba: l.rgba, width, height, scale: crate::scalar::one() }),
        ),
        ..l
    }
}

/// The layer a fresh pixel or adjustment layer is, apart from its kind.
pub open spec fn pristine(l: Layer, id: u32, name: Seq<char>) -> bool {
    &&& l.id == id
    &&& l.name@ == name
    &&& l.visible
    &&& !l.locked
    &&& l.opacity == crate::scalar::one()
    &&& l.blend is Normal
    &&& l.mask is None
    &&& l.mask_enabled
    &&& !l.clipped
}

/// A given name, or a numbered default where it is empty.
pub open spec fn named(name: Seq<char>, default: Seq<char>, id: u32) -> Seq<char> {
    if name.len() == 0 {
        default + crate::strings::decimal(id as nat)
    } else {
        name
    }
}

fn name_or(name: &str, default: &str, id: u32) -> (out: String)
    ensures
        out@ == named(name@, default@, id),
{
    if name.is_empty() {
        let mut s: String = default.to_owned();
        push_decimal(&mut s, id as u128);
        s
    } else {
        name.to_owned()
    }
}

/// The refusal of an index that names no layer.
pub open spec fn no_layer(index: nat) -> Seq<char> {
    "no layer "@ + crate::strings::decimal(index)
}

fn no_layer_error(index: usize) -> (e: IngestError)
    ensures
        e.is_unsupported(no_layer(index as nat)),
{
    let mut s: String = "no layer ".to_owned();
    push_len(&mut s, index);
    IngestError::Unsupported(s)
}

/// A sentence with an index in the middle.
pub open spec fn layer_sentence(index: nat, rest: Seq<char>) -> Seq<char> {
    "layer "@ + crate::strings::decimal(index) + rest
}

fn layer_error(index: usize, rest: &str) -> (e: IngestError)
    ensures
        e.is_unsupported(layer_sentence(index as nat, rest@)),
{
    let mut s: String = "layer ".to_owned();
    push_len(&mut s, index);
    s.append(rest);
    IngestError::Unsupported(s)
}

/// A smart layer after a render: new cached pixels and their scale over the
/// same source.
pub open spec fn rendered_at(l: Layer, rgba: Pixels, scale: Scalar) -> Layer {
    Layer {
        rgba,
        kind: LayerKind::Smart(Box::new(SmartSource { scale, ..*l.kind->Smart_0 })),
        ..l
    }
}

/// `n` zero bytes.
pub open spec fn zeros(n: nat) -> Seq<u8> {
    Seq::new(n, |i: int| 0u8)
}

impl LayerStack {
    /// The canvas width.
    pub closed spec fn columns(self) -> u32 {
        self.width
    }

    /// The canvas height.
    pub closed spec fn rows(self) -> u32 {
        self.height
    }

    /// The layers, bottom first.
    pub closed spec fn list(self) -> Seq<Layer> {
        self.layers@
    }

    /// The index of the active layer.
    pub closed spec fn current(self) -> int {
        self.active as int
    }

    /// The id the next new layer gets.
    pub closed spec fn fresh(self) -> u32 {
        self.next_id
    }

    /// The byte count of an 8-bit canvas.
    pub open spec fn canvas(self) -> int {
        self.columns() * self.rows() * 4
    }

    /// What every operation keeps: at least one layer, an active one among
    /// them, ids that are distinct and below the next, and canvas-extent
    /// pixels and masks.
    pub open spec fn wf(self) -> bool {
        &&& self.list().len() > 0
        &&& 0 <= self.current() < self.list().len()
        &&& self.list().len() <= usize::MAX
        &&& self.canvas() <= usize::MAX
        &&& forall|i: int|
            0 <= i < self.list().len() ==> (#[trigger] self.list()[i]).fits(
                self.columns(),
                self.rows(),
            )
        &&& forall|i: int|
            0 <= i < self.list().len() ==> (#[trigger] self.list()[i]).id < self.fresh()
        &&& forall|i: int, j: int|
            0 <= i < j < self.list().len() ==> (#[trigger] self.list()[i]).id != (
            #[trigger] self.list()[j]).id
    }

    /// Everything but the layer list.
    pub open spec fn same_frame(self, other: LayerStack) -> bool {
        &&& self.columns() == other.columns()
        &&& self.rows() == other.rows()
        &&& self.fresh() == other.fresh()
    }

    /// The refusal of pixels that do not have the canvas extent.
    pub open spec fn bad_stack(len: nat, w: u32, h: u32, want: nat) -> Seq<char> {
        crate::ingest::mis_sized("layer stack: "@, len, " bytes for "@, w, "×"@, h, want)
    }

    /// Open a stack over one image: a single full-canvas background layer,
    /// sharing the image's pixels at their own depth.
    pub fn from_image_px(width: u32, height: u32, rgba: Pixels) -> (stack: Result<
        LayerStack,
        IngestError,
    >)
        ensures
            stack is Ok <==> width > 0 && height > 0 && rgba.covers(width, height),
            stack matches Ok(s) ==> {
                &&& s.wf()
                &&& s.columns() == width
                &&& s.rows() == height
                &&& s.list().len() == 1
                &&& pristine(s.list()[0], 1, "Background"@)
                &&& s.list()[0].kind is Pixels
                &&& s.list()[0].rgba == rgba
                &&& s.current() == 0
                &&& s.fresh() == 2
            },
            stack matches Err(e) ==> e.is_decode(
                LayerStack::bad_stack(
                    rgba.stored().len(),
                    width,
                    height,
                    (width * height * rgba.stride()) as nat,
                ),
            ),
    {
        let want: u128 = canvas_bytes(width, height, rgba.bytes_per_pixel());
        if width == 0 || height == 0 || rgba.len() as u128 != want {
            return Err(
                IngestError::Decode(
                    mis_sized_text(
                        "layer stack: ",
                        rgba.len(),
                        " bytes for ",
                        width,
                        "×",
                        height,
                        want,
                    ),
                ),
            );
        }
        proof {
            let n = width * height;
            assert(n * rgba.stride() == (if rgba.stride() == 8 {
                8 * n
            } else {
                4 * n
            })) by (nonlinear_arith)
                requires
                    rgba.stride() == 8 || rgba.stride() == 4,
            ;
            assert(0 <= n) by (nonlinear_arith)
                requires
                    n == width * height,
                    0 <= width,
                    0 <= height,
            ;
        }
        let mut layers: Vec<Layer> = Vec::new();
        layers.push(
            Layer {
                kind: LayerKind::Pixels,
                id: 1,
                name: BACKGROUND_LAYER_NAME.to_owned(),
                visible: true,
                locked: false,
                opacity: Scalar { bits: ONE },
                blend: BlendMode::Normal,
                rgba,
                mask: None,
                mask_enabled: true,
                clipped: false,
            },
        );
        Ok(LayerStack { width, height, layers, active: 0, next_id: 2 })
    }

    /// Open a stack over an 8-bit image, sharing its allocation.
    pub fn from_image(width: u32, height: u32, rgba: Arc<Vec<u8>>) -> (stack: Result<
        LayerStack,
        IngestError,
    >)
        ensures
            stack is Ok <==> width > 0 && height > 0 && rgba@.len() == width * height * 4,
            stack matches Ok(s) ==> {
                &&& s.wf()
                &&& s.columns() == width
                &&& s.rows() == height
                &&& s.list().len() == 1
                &&& pristine(s.list()[0], 1, "Background"@)
                &&& s.list()[0].kind is Pixels
                &&& s.list()[0].rgba.stored() == rgba@
                &&& s.list()[0].rgba.sample_depth() is U8
                &&& s.current() == 0
                &&& s.fresh() == 2
            },
            stack matches Err(e) ==> e.is_decode(
                LayerStack::bad_stack(rgba@.len(), width, height, (width * height * 4) as nat),
            ),
    {
        LayerStack::from_image_px(width, height, Pixels::from_rgba8(rgba))
    }

    pub fn width(&self) -> (w: u32)
        ensures
            w == self.columns(),
    {
        self.width
    }

    pub fn height(&self) -> (h: u32)
        ensures
            h == self.rows(),
    {
        self.height
    }

    pub fn len(&self) -> (n: usize)
        ensures
            n == self.list().len(),
    {
        self.layers.len()
    }

    pub fn is_empty(&self) -> (empty: bool)
        ensures
            empty <==> self.list().len() == 0,
    {
        self.layers.len() == 0
    }

    pub fn layers(&self) -> (layers: &[Layer])
        ensures
            layers@ == self.list(),
    {
        self.layers.as_slice()
    }

    pub fn active_index(&self) -> (i: usize)
        ensures
            i == self.current(),
    {
        self.active
    }

    pub fn active(&self) -> (layer: &Layer)
        requires
            self.wf(),
        ensures
            *layer == self.list()[self.current()],
    {
        &self.layers[self.active]
    }

    /// Whether another layer can still get an id.
    pub fn can_grow(&self) -> (yes: bool)
        ensures
            yes <==> self.fresh() < u32::MAX && self.list().len() < usize::MAX,
    {
        self.next_id < u32::MAX && self.layers.len() < usize::MAX
    }

    /// A transparent canvas-extent buffer.
    pub fn blank_canvas(&self) -> (px: Pixels)
        requires
            self.wf(),
        ensures
            px.stored() == zeros(self.canvas() as nat),
            px.sample_depth() is U8,
            px.covers(self.columns(), self.rows()),
    {
        proof {
            let n = self.width * self.height;
            assert(0 <= n) by (nonlinear_arith)
                requires
                    n == self.width * self.height,
                    0 <= self.width,
                    0 <= self.height,
            ;
        }
        let n: usize = self.width as usize * self.height as usize * 4;
        let bytes: Vec<u8> = vec![0u8; n];
        proof {
            assert(bytes@ =~= zeros(self.canvas() as nat));
        }
        Pixels::from_vec(bytes)
    }

    fn insert_fresh(&mut self, kind: LayerKind, name: &str, default: &str) -> (at: usize)
        requires
            old(self).wf(),
            old(self).fresh() < u32::MAX,
            old(self).list().len() < usize::MAX,
        ensures
            final(self).wf(),
            at == old(self).current() + 1,
            final(self).current() == at,
            final(self).columns() == old(self).columns(),
            final(self).rows() == old(self).rows(),
            final(self).fresh() == old(self).fresh() + 1,
            final(self).list() == old(self).list().insert(at as int, final(self).list()[at as int]),
            pristine(
                final(self).list()[at as int],
                old(self).fresh(),
                named(name@, default@, old(self).fresh()),
            ),
            final(self).list()[at as int].kind == kind,
            final(self).list()[at as int].rgba.stored() == zeros(old(self).canvas() as nat),
            final(self).list()[at as int].rgba.sample_depth() is U8,
    {
        let ghost before = self.list();
        let id: u32 = self.next_id;
        let at: usize = self.active + 1;
        let rgba: Pixels = self.blank_canvas();
        let layer: Layer = Layer {
            kind,
            id,
            name: name_or(name, default, id),
            visible: true,
            locked: false,
            opacity: Scalar { bits: ONE },
            blend: BlendMode::Normal,
            rgba,
            mask: None,
            mask_enabled: true,
            clipped: false,
        };
        self.next_id = self.next_id + 1;
        let ghost added = layer;
        self.layers.insert(at, layer);
        self.active = at;
        proof {
            inserted_is_wf(before, at as int, added, id);
            assert(self.list() =~= before.insert(at as int, added));
        }
        at
    }

    /// Insert an adjustment layer above the active one and make it active. It
    /// carries no pixels; it transforms everything beneath it at composite
    /// time, so deleting it restores the original exactly.
    pub fn add_adjustment(&mut self, name: &str, params: AdjustParams) -> (at: usize)
        requires
            old(self).wf(),
            old(self).fresh() < u32::MAX,
            old(self).list().len() < usize::MAX,
        ensures
            final(self).wf(),
            at == old(self).current() + 1,
            final(self).current() == at,
            final(self).columns() == old(self).columns(),
            final(self).rows() == old(self).rows(),
            final(self).fresh() == old(self).fresh() + 1,
            final(self).list() == old(self).list().insert(at as int, final(self).list()[at as int]),
            pristine(
                final(self).list()[at as int],
                old(self).fresh(),
                named(name@, "Adjustment "@, old(self).fresh()),
            ),
            final(self).list()[at as int].kind == LayerKind::Adjustment(Box::new(params)),
            final(self).list()[at as int].rgba.stored() == zeros(old(self).canvas() as nat),
    {
        self.insert_fresh(LayerKind::Adjustment(Box::new(params)), name, "Adjustment ")
    }

    /// Add an empty transparent layer directly above the active one and make
    /// it active. Returns its index.
    pub fn add(&mut self, name: &str) -> (at: usize)
        requires
            old(self).wf(),
            old(self).fresh() < u32::MAX,
            old(self).list().len() < usize::MAX,
        ensures
            final(self).wf(),
            at == old(self).current() + 1,
            final(self).current() == at,
            final(self).columns() == old(self).columns(),
            final(self).rows() == old(self).rows(),
            final(self).fresh() == old(self).fresh() + 1,
            final(self).list() == old(self).list().insert(at as int, final(self).list()[at as int]),
            pristine(
                final(self).list()[at as int],
                old(self).fresh(),
                named(name@, "Layer "@, old(self).fresh()),
            ),
            final(self).list()[at as int].kind is Pixels,
            final(self).list()[at as int].rgba.stored() == zeros(old(self).canvas() as nat),
            final(self).list()[at as int].rgba.sample_depth() is U8,
    {
        self.insert_fresh(LayerKind::Pixels, name, "Layer ")
    }
}

/// Inserting a fitting layer under a fresh id keeps ids distinct.
proof fn inserted_is_wf(list: Seq<Layer>, at: int, layer: Layer, id: u32)
    requires
        0 <= at <= list.len(),
        layer.id == id,
        forall|i: int| 0 <= i < list.len() ==> (#[trigger] list[i]).id < id,
        forall|i: int, j: int|
            0 <= i < j < list.len() ==> (#[trigger] list[i]).id != (#[trigger] list[j]).id,
    ensures
        forall|i: int|
            0 <= i < list.len() + 1 ==> (#[trigger] list.insert(at, layer)[i]).id <= id,
        forall|i: int, j: int|
            0 <= i < j < list.len() + 1 ==> (#[trigger] list.insert(at, layer)[i]).id != (
            #[trigger] list.insert(at, layer)[j]).id,
{
    let longer = list.insert(at, layer);
    assert forall|i: int| 0 <= i < longer.len() implies (#[trigger] longer[i]).id <= id by {
        if i < at {
            assert(longer[i] == list[i]);
        } else if i > at {
            assert(longer[i] == list[i - 1]);
        }
    }
    assert forall|i: int, j: int| 0 <= i < j < longer.len() implies (#[trigger] longer[i]).id != (
    #[trigger] longer[j]).id by {
        let a = if i < at {
            i
        } else {
            i - 1
        };
        let b = if j < at {
            j
        } else {
            j - 1
        };
        if i != at {
            assert(longer[i] == list[a]);
        }
        if j != at {
            assert(longer[j] == list[b]);
        }
    }
}

/// The refusal of a plate that does not have the canvas extent.
pub open spec fn bad_plate(name: Seq<char>, len: nat, w: u32, h: u32, want: nat) -> Seq<char> {
    crate::ingest::mis_sized("PSD layer \""@ + name + "\" is "@, len, " bytes for "@, w, "×"@, h, want)
}

/// The layer that plate number `i` becomes.
pub open spec fn plate_layer(plate: Plate, i: int, l: Layer) -> bool {
    &&& l.kind is Pixels
    &&& l.id == i + 1
    &&& l.name@ == (if plate.name@.len() == 0 {
        "Layer "@ + crate::strings::decimal((i + 1) as nat)
    } else {
        plate.name@
    })
    &&& l.visible == !plate.hidden
    &&& !l.locked
    &&& l.opacity == crate::scalar::byte_fraction(plate.opacity)
    &&& (forall|m: BlendMode| #[trigger]
        m.psd_key() == crate::blend::key_number(plate.blend_key@) ==> l.blend == m)
    &&& ((forall|m: BlendMode| #[trigger]
        m.psd_key() != crate::blend::key_number(plate.blend_key@)) ==> l.blend is Normal)
    &&& l.rgba.stored() == plate.rgba@
    &&& l.rgba.sample_depth() is U8
    &&& l.mask is None
    &&& l.mask_enabled
    &&& !l.clipped
}

impl LayerStack {
    /// Open a stack from a PSD's imported plates, bottom first; the topmost is
    /// active. An empty name becomes a numbered one, and an unmodelled blend
    /// key falls back to normal.
    pub fn from_psd_plates(width: u32, height: u32, plates: &Vec<Plate>) -> (stack: Result<
        LayerStack,
        IngestError,
    >)
        requires
            plates@.len() < u32::MAX,
        ensures
            stack is Ok <==> plates@.len() > 0 && forall|i: int|
                0 <= i < plates@.len() ==> (#[trigger] plates@[i]).rgba@.len() == width * height * 4,
            stack matches Ok(s) ==> {
                &&& s.wf()
                &&& s.columns() == width
                &&& s.rows() == height
                &&& s.list().len() == plates@.len()
                &&& forall|i: int|
                    0 <= i < plates@.len() ==> plate_layer(plates@[i], i, #[trigger] s.list()[i])
                &&& s.current() == plates@.len() - 1
                &&& s.fresh() == plates@.len() + 1
            },
            stack matches Err(e) ==> if plates@.len() == 0 {
                e.is_unsupported("PSD layer import produced no layers"@)
            } else {
                exists|i: int|
                    0 <= i < plates@.len() && (#[trigger] plates@[i]).rgba@.len() != width * height * 4
                        && (forall|j: int|
                        0 <= j < i ==> (#[trigger] plates@[j]).rgba@.len() == width * height * 4)
                        && e.is_decode(
                        bad_plate(
                            plates@[i].name@,
                            plates@[i].rgba@.len(),
                            width,
                            height,
                            (width * height * 4) as nat,
                        ),
                    )
            },
    {
        if plates.len() == 0 {
            return Err(unsupported("PSD layer import produced no layers"));
        }
        let want: u128 = canvas_bytes(width, height, 4);
        let mut layers: Vec<Layer> = Vec::new();
        let mut i: usize = 0;
        while i < plates.len()
            invariant
                i <= plates@.len(),
                0 < plates@.len() < u32::MAX,
                want == width * height * 4,
                layers@.len() == i,
                i > 0 ==> want <= usize::MAX,
                forall|j: int| 0 <= j < i ==> (#[trigger] plates@[j]).rgba@.len() == width * height * 4,
                forall|j: int| 0 <= j < i ==> plate_layer(plates@[j], j, #[trigger] layers@[j]),
                forall|j: int| 0 <= j < i ==> (#[trigger] layers@[j]).fits(width, height),
            decreases plates@.len() - i,
        {
            let plate: &Plate = &plates[i];
            if plate.rgba.len() as u128 != want {
                let mut what: String = "PSD layer \"".to_owned();
                what.append(plate.name.as_str());
                what.append("\" is ");
                assert(plates@[i as int].rgba@.len() != width * height * 4);
                return Err(
                    IngestError::Decode(
                        mis_sized_text(
                            what.as_str(),
                            plate.rgba.len(),
                            " bytes for ",
                            width,
                            "×",
                            height,
                            want,
                        ),
                    ),
                );
            }
            let name: String = if plate.name.as_str().is_empty() {
                let mut s: String = "Layer ".to_owned();
                push_len(&mut s, i + 1);
                s
            } else {
                plate.name.clone()
            };
            let bytes: Vec<u8> = plate.rgba.clone();
            proof {
                assert(bytes@ =~= plate.rgba@);
            }
            layers.push(
                Layer {
                    kind: LayerKind::Pixels,
                    id: i as u32 + 1,
                    name,
                    visible: !plate.hidden,
                    locked: false,
                    opacity: crate::scalar::fraction_of_255(plate.opacity),
                    blend: crate::blend::psd_blend_kernel(&plate.blend_key),
                    rgba: Pixels::from_vec(bytes),
                    mask: None,
                    mask_enabled: true,
                    clipped: false,
                },
            );
            i = i + 1;
        }
        let n: usize = layers.len();
        Ok(LayerStack { width, height, layers, active: n - 1, next_id: n as u32 + 1 })
    }

    /// Convert a pixel layer into a smart object, preserving its current
    /// pixels as the source. Converting twice changes nothing; an adjustment
    /// layer has no pixels to preserve.
    pub fn make_smart(&mut self, index: usize) -> (done: Result<(), IngestError>)
        requires
            old(self).wf(),
        ensures
            final(self).wf(),
            final(self).same_frame(*old(self)),
            final(self).current() == old(self).current(),
            done is Ok <==> index < old(self).list().len() && !(old(
                self,
            ).list()[index as int].kind is Adjustment),
            final(self).list() == (if done is Ok && old(self).list()[index as int].kind is Pixels {
                old(self).list().update(
                    index as int,
                    smart_of(
                        old(self).list()[index as int],
                        old(self).columns(),
                        old(self).rows(),
                    ),
                )
            } else {
                old(self).list()
            }),
            done matches Err(e) ==> e.is_unsupported(
                if index < old(self).list().len() {
                    layer_sentence(
                        index as nat,
                        " is an adjustment layer, which has no pixels to preserve"@,
                    )
                } else {
                    no_layer(index as nat)
                },
            ),
    {
        if index >= self.layers.len() {
            return Err(no_layer_error(index));
        }
        let ghost before = self.list();
        if matches!(self.layers[index].kind, LayerKind::Adjustment(_)) {
            return Err(
                layer_error(index, " is an adjustment layer, which has no pixels to preserve"),
            );
        }
        if matches!(self.layers[index].kind, LayerKind::Smart(_)) {
            return Ok(());
        }
        let source: SmartSource = SmartSource {
            rgba: self.layers[index].rgba.clone(),
            width: self.width,
            height: self.height,
            scale: Scalar { bits: ONE },
        };
        self.layers[index].kind = LayerKind::Smart(Box::new(source));
        proof {
            assert(self.list() =~= before.update(index as int, self.list()[index as int]));
        }
        Ok(())
    }

    /// The refusal of a render that does not have the canvas extent.
    pub open spec fn bad_render(len: nat, want: nat) -> Seq<char> {
        "smart render is "@ + crate::strings::decimal(len) + " bytes but the canvas needs "@
            + crate::strings::decimal(want)
    }

    /// Record a re-render of a smart object at `scale`. The source is never
    /// replaced, only the cached render is.
    pub fn set_smart_render(&mut self, index: usize, rendered: Vec<u8>, scale: Scalar) -> (done:
        Result<(), IngestError>)
        requires
            old(self).wf(),
        ensures
            final(self).wf(),
            final(self).same_frame(*old(self)),
            final(self).current() == old(self).current(),
            done is Ok <==> rendered@.len() == old(self).canvas() && index < old(self).list().len()
                && old(self).list()[index as int].kind is Smart,
            done is Err ==> final(self).list() == old(self).list(),
            done is Ok ==> {
                let l = old(self).list()[index as int];
                let n = final(self).list()[index as int];
                &&& final(self).list() == old(self).list().update(index as int, n)
                &&& n.rgba.stored() == rendered@
                &&& n.rgba.sample_depth() is U8
                &&& n == rendered_at(l, n.rgba, scale)
            },
            done matches Err(e) ==> e.is_unsupported(
                if rendered@.len() != old(self).canvas() {
                    LayerStack::bad_render(rendered@.len(), old(self).canvas() as nat)
                } else if index < old(self).list().len() {
                    layer_sentence(index as nat, " is not a smart object"@)
                } else {
                    no_layer(index as nat)
                },
            ),
    {
        let want: u128 = canvas_bytes(self.width, self.height, 4);
        if rendered.len() as u128 != want {
            let mut s: String = "smart render is ".to_owned();
            push_len(&mut s, rendered.len());
            s.append(" bytes but the canvas needs ");
            push_decimal(&mut s, want);
            return Err(IngestError::Unsupported(s));
        }
        if index >= self.layers.len() {
            return Err(no_layer_error(index));
        }
        let ghost before = self.list();
        let source: SmartSource = match &self.layers[index].kind {
            LayerKind::Smart(src) => SmartSource {
                rgba: src.rgba.clone(),
                width: src.width,
                height: src.height,
                scale,
            },
            _ => {
                return Err(layer_error(index, " is not a smart object"));
            },
        };
        self.layers[index].kind = LayerKind::Smart(Box::new(source));
        self.layers[index].rgba = Pixels::from_vec(rendered);
        proof {
            assert(self.list() =~= before.update(index as int, self.list()[index as int]));
        }
        Ok(())
    }

    /// Whether `index` is a smart object.
    pub fn is_smart(&self, index: usize) -> (smart: bool)
        ensures
            smart <==> index < self.list().len() && self.list()[index as int].kind is Smart,
    {
        index < self.layers.len() && self.layers[index].smart_source().is_some()
    }

    /// Retune an adjustment layer. A pixel layer is refused, never converted.
    pub fn set_adjustment(&mut self, index: usize, params: AdjustParams) -> (done: Result<
        (),
        IngestError,
    >)
        requires
            old(self).wf(),
        ensures
            final(self).wf(),
            final(self).same_frame(*old(self)),
            final(self).current() == old(self).current(),
            done is Ok <==> index < old(self).list().len() && old(
                self,
            ).list()[index as int].kind is Adjustment,
            final(self).list() == (if done is Ok {
                old(self).list().update(
                    index as int,
                    Layer {
                        kind: LayerKind::Adjustment(Box::new(params)),
                        ..old(self).list()[index as int]
                    },
                )
            } else {
                old(self).list()
            }),
            done matches Err(e) ==> e.is_unsupported(
                if index < old(self).list().len() {
                    layer_sentence(index as nat, " holds pixels, not an adjustment"@)
                } else {
                    no_layer(index as nat)
                },
            ),
    {
        if index >= self.layers.len() {
            return Err(no_layer_error(index));
        }
        let ghost before = self.list();
        if !matches!(self.layers[index].kind, LayerKind::Adjustment(_)) {
            return Err(layer_error(index, " holds pixels, not an adjustment"));
        }
        self.layers[index].kind = LayerKind::Adjustment(Box::new(params));
        proof {
            assert(self.list() =~= before.update(index as int, self.list()[index as int]));
        }
        Ok(())
    }

    /// Whether `index` is an adjustment layer.
    pub fn is_adjustment(&self, index: usize) -> (adjustment: bool)
        ensures
            adjustment <==> index < self.list().len() && self.list()[index as int].kind is Adjustment,
    {
        index < self.layers.len() && self.layers[index].adjust_params().is_some()
    }

    /// Whether a layer was duplicated like this.
    pub open spec fn duplicated(
        before: LayerStack,
        after: LayerStack,
        index: usize,
        at: Option<usize>,
    ) -> bool {
        &&& (at is Some <==> index < before.list().len())
        &&& (at is None ==> after.list() == before.list() && after.current() == before.current()
            && after.fresh() == before.fresh())
        &&& (at matches Some(i) ==> {
            let copy = after.list()[i as int];
            &&& i == index + 1
            &&& after.current() == i
            &&& after.fresh() == before.fresh() + 1
            &&& after.list() == before.list().insert(i as int, copy)
            &&& copy.name@ == before.list()[index as int].name@ + " copy"@
            &&& copy == (Layer {
                id: before.fresh(),
                name: copy.name,
                ..before.list()[index as int]
            })
        })
    }

    /// Duplicate `index` directly above itself and make the copy active. The
    /// copy carries everything but the id and the name, the mask among it.
    pub fn duplicate(&mut self, index: usize) -> (at: Option<usize>)
        requires
            old(self).wf(),
            old(self).fresh() < u32::MAX,
            old(self).list().len() < usize::MAX,
        ensures
            final(self).wf(),
            final(self).columns() == old(self).columns(),
            final(self).rows() == old(self).rows(),
            LayerStack::duplicated(*old(self), *final(self), index, at),
    {
        if index >= self.layers.len() {
            return None;
        }
        let ghost before = self.list();
        let mut copy: Layer = self.layers[index].clone();
        let id: u32 = self.next_id;
        let at: usize = index + 1;
        copy.id = id;
        let mut name: String = self.layers[index].name.clone();
        name.append(" copy");
        copy.name = name;
        self.next_id = self.next_id + 1;
        let ghost added = copy;
        self.layers.insert(at, copy);
        self.active = at;
        proof {
            inserted_is_wf(before, at as int, added, id);
            assert(self.list() =~= before.insert(at as int, added));
            assert(before[index as int].fits(self.columns(), self.rows()));
        }
        Some(at)
    }

    /// Whether a layer was removed like this.
    pub open spec fn removed(
        before: LayerStack,
        after: LayerStack,
        index: usize,
        done: Result<JournalAction, IngestError>,
    ) -> bool {
        &&& (done is Ok <==> index < before.list().len() && before.list().len() > 1)
        &&& (done matches Ok(action) ==> action is Clear && after.list() == before.list().remove(
            index as int,
        ) && after.current() == (if before.current() >= before.list().len() - 1 {
            before.list().len() - 2
        } else {
            before.current()
        }))
        &&& (done is Err ==> after.list() == before.list() && after.current() == before.current())
        &&& (done matches Err(e) ==> e.is_unsupported(
            if index < before.list().len() {
                "cannot remove the only layer (a document keeps at least one)"@
            } else {
                no_layer(index as nat)
            },
        ))
    }

    /// Remove `index`. The only layer of a document is refused. The journal's
    /// entries may speak of the removed pixels, so it is cleared.
    pub fn remove(&mut self, index: usize) -> (done: Result<JournalAction, IngestError>)
        requires
            old(self).wf(),
        ensures
            final(self).wf(),
            final(self).same_frame(*old(self)),
            LayerStack::removed(*old(self), *final(self), index, done),
    {
        if index >= self.layers.len() {
            return Err(no_layer_error(index));
        }
        if self.layers.len() == 1 {
            return Err(
                unsupported("cannot remove the only layer (a document keeps at least one)"),
            );
        }
        let ghost before = self.list();
        self.layers.remove(index);
        if self.active >= self.layers.len() {
            self.active = self.layers.len() - 1;
        }
        proof {
            let after = self.list();
            assert forall|i: int| 0 <= i < after.len() implies (#[trigger] after[i]) == before[if i
                < index {
                i
            } else {
                i + 1
            }] by {}
            assert forall|i: int, j: int| 0 <= i < j < after.len() implies (#[trigger] after[i]).id
                != (#[trigger] after[j]).id by {
                assert(after[i] == before[if i < index {
                    i
                } else {
                    i + 1
                }]);
                assert(after[j] == before[if j < index {
                    j
                } else {
                    j + 1
                }]);
            }
        }
        Ok(JournalAction::Clear)
    }

    /// The refusal of a move outside the stack.
    pub open spec fn bad_move(from: nat, to: nat, len: nat) -> Seq<char> {
        "reorder "@ + crate::strings::decimal(from) + "→"@ + crate::strings::decimal(to)
            + " outside 0.."@ + crate::strings::decimal(len)
    }

    fn position_of(&self, id: u32) -> (at: Option<usize>)
        ensures
            match at {
                Some(i) => i < self.list().len() && self.list()[i as int].id == id,
                None => forall|i: int|
                    0 <= i < self.list().len() ==> (#[trigger] self.list()[i]).id != id,
            },
    {
        let mut i: usize = 0;
        while i < self.layers.len()
            invariant
                i <= self.list().len(),
                forall|j: int| 0 <= j < i ==> (#[trigger] self.list()[j]).id != id,
            decreases self.list().len() - i,
        {
            if self.layers[i].id == id {
                return Some(i);
            }
            i = i + 1;
        }
        None
    }

    /// Whether a layer was moved like this.
    pub open spec fn reordered(
        before: LayerStack,
        after: LayerStack,
        from: usize,
        to: usize,
        done: Result<(), IngestError>,
    ) -> bool {
        &&& (done is Ok <==> from < before.list().len() && to < before.list().len())
        &&& (done is Ok ==> after.list() == before.list().remove(from as int).insert(
            to as int,
            before.list()[from as int],
        ))
        &&& (after.list()[after.current()].id == before.list()[before.current()].id)
        &&& (done is Err ==> after.list() == before.list() && after.current() == before.current())
        &&& (done matches Err(e) ==> e.is_unsupported(
            LayerStack::bad_move(from as nat, to as nat, before.list().len()),
        ))
    }

    /// Move `from` to `to`, both in stack order, carrying the active selection
    /// with the layer that had it.
    pub fn reorder(&mut self, from: usize, to: usize) -> (done: Result<(), IngestError>)
        requires
            old(self).wf(),
        ensures
            final(self).wf(),
            final(self).same_frame(*old(self)),
            LayerStack::reordered(*old(self), *final(self), from, to, done),
    {
        if from >= self.layers.len() || to >= self.layers.len() {
            let mut s: String = "reorder ".to_owned();
            push_len(&mut s, from);
            s.append("→");
            push_len(&mut s, to);
            s.append(" outside 0..");
            push_len(&mut s, self.layers.len());
            return Err(IngestError::Unsupported(s));
        }
        let ghost before = self.list();
        if from == to {
            proof {
                assert(before.remove(from as int).insert(to as int, before[from as int]) =~= before);
            }
            return Ok(());
        }
        let was_active: u32 = self.layers[self.active].id;
        let ghost current = self.current();
        let moved: Layer = self.layers.remove(from);
        self.layers.insert(to, moved);
        proof {
            let after = self.list();
            let old_of = |i: int|
                if i == to {
                    from as int
                } else {
                    let k = if i < to {
                        i
                    } else {
                        i - 1
                    };
                    if k < from {
                        k
                    } else {
                        k + 1
                    }
                };
            assert forall|i: int| 0 <= i < after.len() implies (#[trigger] after[i]) == before[old_of(
                i,
            )] && 0 <= old_of(i) < before.len() by {}
            assert forall|i: int, j: int| 0 <= i < j < after.len() implies (#[trigger] after[i]).id
                != (#[trigger] after[j]).id by {
                assert(after[i] == before[old_of(i)]);
                assert(after[j] == before[old_of(j)]);
                assert(old_of(i) != old_of(j));
            }
            // The active layer is still there, at the place it moved to.
            let k = if current < from {
                current
            } else {
                current - 1
            };
            let place = if current == from {
                to as int
            } else if k < to {
                k
            } else {
                k + 1
            };
            assert(old_of(place) == current);
            assert(after[place].id == was_active);
        }
        self.active =
        match self.position_of(was_active) {
            Some(i) => i,
            None => to,
        };
        Ok(())
    }

    pub fn set_active(&mut self, index: usize) -> (done: Result<(), IngestError>)
        requires
            old(self).wf(),
        ensures
            final(self).wf(),
            final(self).same_frame(*old(self)),
            final(self).list() == old(self).list(),
            done is Ok <==> index < old(self).list().len(),
            final(self).current() == (if done is Ok {
                index as int
            } else {
                old(self).current()
            }),
            done matches Err(e) ==> e.is_unsupported(no_layer(index as nat)),
    {
        if index >= self.layers.len() {
            return Err(no_layer_error(index));
        }
        self.active = index;
        Ok(())
    }

    /// Whether an operation replaced exactly layer `index`, or refused it.
    pub open spec fn replaced(
        before: LayerStack,
        after: LayerStack,
        index: usize,
        layer: Layer,
        done: Result<(), IngestError>,
    ) -> bool {
        &&& after.wf()
        &&& after.same_frame(before)
        &&& after.current() == before.current()
        &&& done is Ok <==> index < before.list().len()
        &&& after.list() == (if done is Ok {
            before.list().update(index as int, layer)
        } else {
            before.list()
        })
        &&& done matches Err(e) ==> e.is_unsupported(no_layer(index as nat))
    }

    /// Show or hide a layer.
    pub fn set_visible(&mut self, index: usize, visible: bool) -> (done: Result<(), IngestError>)
        requires
            old(self).wf(),
        ensures
            LayerStack::replaced(
                *old(self),
                *final(self),
                index,
                Layer { visible, ..old(self).list()[index as int] },
                done,
            ),
    {
        if index >= self.layers.len() {
            return Err(no_layer_error(index));
        }
        let ghost before = self.list();
        self.layers[index].visible = visible;
        proof {
            assert(self.list() =~= before.update(index as int, self.list()[index as int]));
        }
        Ok(())
    }

    /// Lock or unlock a layer's pixels.
    pub fn set_locked(&mut self, index: usize, locked: bool) -> (done: Result<(), IngestError>)
        requires
            old(self).wf(),
        ensures
            LayerStack::replaced(
                *old(self),
                *final(self),
                index,
                Layer { locked, ..old(self).list()[index as int] },
                done,
            ),
    {
        if index >= self.layers.len() {
            return Err(no_layer_error(index));
        }
        let ghost before = self.list();
        self.layers[index].locked = locked;
        proof {
            assert(self.list() =~= before.update(index as int, self.list()[index as int]));
        }
        Ok(())
    }

    /// Toggle whether an attached mask applies, keeping it either way.
    pub fn set_mask_enabled(&mut self, index: usize, enabled: bool) -> (done: Result<(), IngestError>)
        requires
            old(self).wf(),
        ensures
            LayerStack::replaced(
                *old(self),
                *final(self),
                index,
                Layer { mask_enabled: enabled, ..old(self).list()[index as int] },
                done,
            ),
    {
        if index >= self.layers.len() {
            return Err(no_layer_error(index));
        }
        let ghost before = self.list();
        self.layers[index].mask_enabled = enabled;
        proof {
            assert(self.list() =~= before.update(index as int, self.list()[index as int]));
        }
        Ok(())
    }

    /// Clip a layer to the one beneath it, or release it.
    pub fn set_clipped(&mut self, index: usize, clipped: bool) -> (done: Result<(), IngestError>)
        requires
            old(self).wf(),
        ensures
            LayerStack::replaced(
                *old(self),
                *final(self),
                index,
                Layer { clipped, ..old(self).list()[index as int] },
                done,
            ),
    {
        if index >= self.layers.len() {
            return Err(no_layer_error(index));
        }
        let ghost before = self.list();
        self.layers[index].clipped = clipped;
        proof {
            assert(self.list() =~= before.update(index as int, self.list()[index as int]));
        }
        Ok(())
    }

    /// Set a layer's opacity, clamped to 0 to 1.
    pub fn set_opacity(&mut self, index: usize, opacity: Scalar) -> (done: Result<(), IngestError>)
        requires
            old(self).wf(),
        ensures
            LayerStack::replaced(
                *old(self),
                *final(self),
                index,
                Layer {
                    opacity: opacity.clamped(crate::scalar::zero(), crate::scalar::one()),
                    ..old(self).list()[index as int]
                },
                done,
            ),
    {
        if index >= self.layers.len() {
            return Err(no_layer_error(index));
        }
        let ghost before = self.list();
        self.layers[index].opacity = opacity.clamp(Scalar { bits: ZERO }, Scalar { bits: ONE });
        proof {
            assert(self.list() =~= before.update(index as int, self.list()[index as int]));
        }
        Ok(())
    }

    /// The refusal of a mask that does not have the canvas extent.
    pub open spec fn bad_mask(mw: u32, mh: u32, w: u32, h: u32) -> Seq<char> {
        "layer mask is "@ + crate::strings::decimal(mw as nat) + "×"@ + crate::strings::decimal(
            mh as nat,
        ) + " but the canvas is "@ + crate::strings::decimal(w as nat) + "×"@
            + crate::strings::decimal(h as nat) + " (no implicit resample)"@
    }

    /// Attach `coverage` as a layer's mask and enable it. A size mismatch is
    /// refused, never resampled.
    pub fn set_mask(&mut self, index: usize, coverage: Arc<SelectionCoverage>) -> (done: Result<
        (),
        IngestError,
    >)
        requires
            old(self).wf(),
        ensures
            final(self).wf(),
            final(self).same_frame(*old(self)),
            final(self).current() == old(self).current(),
            done is Ok <==> coverage.columns() == old(self).columns() && coverage.rows() == old(
                self,
            ).rows() && index < old(self).list().len(),
            final(self).list() == (if done is Ok {
                old(self).list().update(
                    index as int,
                    Layer {
                        mask: Some(coverage),
                        mask_enabled: true,
                        ..old(self).list()[index as int]
                    },
                )
            } else {
                old(self).list()
            }),
            done matches Err(e) ==> e.is_unsupported(
                if coverage.columns() == old(self).columns() && coverage.rows() == old(self).rows() {
                    no_layer(index as nat)
                } else {
                    LayerStack::bad_mask(
                        coverage.columns(),
                        coverage.rows(),
                        old(self).columns(),
                        old(self).rows(),
                    )
                },
            ),
    {
        if coverage.width() != self.width || coverage.height() != self.height {
            let mut s: String = "layer mask is ".to_owned();
            push_decimal(&mut s, coverage.width() as u128);
            s.append("×");
            push_decimal(&mut s, coverage.height() as u128);
            s.append(" but the canvas is ");
            push_decimal(&mut s, self.width as u128);
            s.append("×");
            push_decimal(&mut s, self.height as u128);
            s.append(" (no implicit resample)");
            return Err(IngestError::Unsupported(s));
        }
        if index >= self.layers.len() {
            return Err(no_layer_error(index));
        }
        let ghost before = self.list();
        self.layers[index].mask = Some(coverage);
        self.layers[index].mask_enabled = true;
        proof {
            assert(self.list() =~= before.update(index as int, self.list()[index as int]));
        }
        Ok(())
    }

    /// Delete a layer's mask: the coverage is gone.
    pub fn clear_mask(&mut self, index: usize) -> (done: Result<(), IngestError>)
        requires
            old(self).wf(),
        ensures
            LayerStack::replaced(
                *old(self),
                *final(self),
                index,
                Layer { mask: None, mask_enabled: true, ..old(self).list()[index as int] },
                done,
            ),
    {
        if index >= self.layers.len() {
            return Err(no_layer_error(index));
        }
        let ghost before = self.list();
        self.layers[index].mask = None;
        self.layers[index].mask_enabled = true;
        proof {
            assert(self.list() =~= before.update(index as int, self.list()[index as int]));
        }
        Ok(())
    }

    /// Whether `index` has a mask attached at all, enabled or not.
    pub fn has_mask(&self, index: usize) -> (masked: bool)
        ensures
            masked <==> index < self.list().len() && self.list()[index as int].mask is Some,
    {
        index < self.layers.len() && self.layers[index].mask.is_some()
    }

    /// Rename a layer.
    pub fn set_name(&mut self, index: usize, name: &str) -> (done: Result<(), IngestError>)
        requires
            old(self).wf(),
        ensures
            LayerStack::replaced(
                *old(self),
                *final(self),
                index,
                Layer {
                    name: final(self).list()[index as int].name,
                    ..old(self).list()[index as int]
                },
                done,
            ),
            done is Ok ==> final(self).list()[index as int].name@ == name@,
    {
        if index >= self.layers.len() {
            return Err(no_layer_error(index));
        }
        let ghost before = self.list();
        self.layers[index].name = name.to_owned();
        proof {
            assert(self.list() =~= before.update(index as int, self.list()[index as int]));
        }
        Ok(())
    }

    /// The refusal of a blend name that no kernel answers to.
    pub open spec fn bad_blend(name: Seq<char>) -> Seq<char> {
        "unknown blend mode \""@ + name + "\" (a compose.* kernel name)"@
    }

    /// Set a layer's blend by its wire name or kernel id. An unknown name is
    /// an error, never a fall back to normal.
    pub fn set_blend(&mut self, index: usize, name: &str) -> (done: Result<(), IngestError>)
        requires
            old(self).wf(),
        ensures
            final(self).wf(),
            final(self).same_frame(*old(self)),
            final(self).current() == old(self).current(),
            done is Ok <==> index < old(self).list().len() && exists|m: BlendMode| #[trigger]
                m.named_by(name@),
            done is Err ==> final(self).list() == old(self).list(),
            done is Ok ==> {
                let n = final(self).list()[index as int];
                &&& n.blend.named_by(name@)
                &&& final(self).list() == old(self).list().update(
                    index as int,
                    Layer { blend: n.blend, ..old(self).list()[index as int] },
                )
            },
            done matches Err(e) ==> e.is_unsupported(
                if exists|m: BlendMode| #[trigger] m.named_by(name@) {
                    no_layer(index as nat)
                } else {
                    LayerStack::bad_blend(name@)
                },
            ),
    {
        let blend: BlendMode = match crate::blend::blend_kernel(name) {
            Some(b) => b,
            None => {
                let mut s: String = "unknown blend mode \"".to_owned();
                s.append(name);
                s.append("\" (a compose.* kernel name)");
                return Err(IngestError::Unsupported(s));
            },
        };
        if index >= self.layers.len() {
            return Err(no_layer_error(index));
        }
        let ghost before = self.list();
        self.layers[index].blend = blend;
        proof {
            assert(self.list() =~= before.update(index as int, self.list()[index as int]));
        }
        Ok(())
    }

    /// The part of a damage region that lies on the canvas.
    pub open spec fn on_canvas(self, damage: Region, clipped: Region) -> bool {
        let canvas = Region { x: 0, y: 0, w: self.columns(), h: self.rows() };
        ||| !clipped.vacant() && forall|px: int, py: int|
            #![trigger clipped.has(px, py)]
            clipped.has(px, py) <==> damage.has(px, py) && canvas.has(px, py)
        ||| clipped == (Region { x: 0, y: 0, w: 0, h: 0 }) && forall|px: int, py: int|
            #![trigger damage.has(px, py)]
            !(damage.has(px, py) && canvas.has(px, py))
    }

    /// The refusal of an edit on a locked layer.
    pub open spec fn locked_sentence(name: Seq<char>) -> Seq<char> {
        "layer \""@ + name + "\" is locked"@
    }

    /// Whether the active layer's pixels were replaced like this.
    pub open spec fn edited(
        before: LayerStack,
        after: LayerStack,
        label: Seq<char>,
        damage: Region,
        pixels: Pixels,
        edit: Result<EditRecord, IngestError>,
    ) -> bool {
        let l = before.list()[before.current()];
        let sized = pixels.covers(before.columns(), before.rows());
        let deep = pixels.sample_depth() == l.rgba.sample_depth();
        &&& edit is Ok <==> sized && deep && !l.locked
        &&& after.list() == (if edit is Ok {
            before.list().update(before.current(), Layer { rgba: pixels, ..l })
        } else {
            before.list()
        })
        &&& edit matches Ok(r) ==> r.label@ == label && r.scope == l.id && r.before
            == l.rgba && before.on_canvas(damage, r.region)
        &&& edit matches Err(e) ==> if !sized {
            e.is_decode(
                crate::ingest::mis_sized(
                    "layer edit: "@,
                    pixels.stored().len(),
                    " bytes for "@,
                    before.columns(),
                    "×"@,
                    before.rows(),
                    (before.columns() * before.rows() * pixels.stride()) as nat,
                ),
            )
        } else if !deep {
            e.is_unsupported("layer edit: the pixels and the layer differ in depth (depths must match)"@)
        } else {
            e.is_unsupported(LayerStack::locked_sentence(l.name@))
        }
    }

    /// Replace the active layer's pixels. The record is what the journal
    /// keeps: the layer's id, the damage on the canvas, and the pixels before.
    ///
    /// Pixels off the canvas extent, pixels at another depth than the layer's
    /// and a locked layer are refused, in this order, and nothing changes.
    pub fn edit_active(&mut self, label: &str, damage: Region, pixels: Pixels) -> (edit: Result<
        EditRecord,
        IngestError,
    >)
        requires
            old(self).wf(),
        ensures
            final(self).wf(),
            final(self).same_frame(*old(self)),
            final(self).current() == old(self).current(),
            LayerStack::edited(*old(self), *final(self), label@, damage, pixels, edit),
    {
        let ghost before = self.list();
        let want: u128 = canvas_bytes(self.width, self.height, pixels.bytes_per_pixel());
        if pixels.len() as u128 != want {
            return Err(
                IngestError::Decode(
                    mis_sized_text(
                        "layer edit: ",
                        pixels.len(),
                        " bytes for ",
                        self.width,
                        "×",
                        self.height,
                        want,
                    ),
                ),
            );
        }
        if pixels.depth() != self.layers[self.active].rgba.depth() {
            return Err(
                unsupported(
                    "layer edit: the pixels and the layer differ in depth (depths must match)",
                ),
            );
        }
        if self.layers[self.active].locked {
            let mut s: String = "layer \"".to_owned();
            s.append(self.layers[self.active].name.as_str());
            s.append("\" is locked");
            return Err(IngestError::Unsupported(s));
        }
        let canvas: Region = Region::new(0, 0, self.width, self.height);
        let region: Region = match damage.intersect(canvas) {
            Some(r) => r,
            None => Region::new(0, 0, 0, 0),
        };
        let record: EditRecord = EditRecord {
            label: label.to_owned(),
            scope: self.layers[self.active].id as u64,
            region,
            before: self.layers[self.active].rgba.clone(),
        };
        let at: usize = self.active;
        self.layers[at].rgba = pixels;
        proof {
            assert(self.list() =~= before.update(at as int, self.list()[at as int]));
        }
        Ok(record)
    }

    /// Is the active layer editable? The doors ask before doing device work,
    /// so that a refusal is instant.
    pub fn active_is_editable(&self) -> (editable: Result<(), IngestError>)
        requires
            self.wf(),
        ensures
            editable is Ok <==> !self.list()[self.current()].locked,
            editable matches Err(e) ==> e.is_unsupported(
                LayerStack::locked_sentence(self.list()[self.current()].name@)
                    + " — unlock it to paint on it"@,
            ),
    {
        let a: &Layer = self.active();
        if a.locked {
            let mut s: String = "layer \"".to_owned();
            s.append(a.name.as_str());
            s.append("\" is locked");
            s.append(" — unlock it to paint on it");
            return Err(IngestError::Unsupported(s));
        }
        Ok(())
    }

    /// Whether layer `i` is the one a journal entry belongs to.
    pub open spec fn scoped(self, i: int, scope: u64) -> bool {
        0 <= i < self.list().len() && self.list()[i].id == scope
    }

    /// The layer a journal entry belongs to.
    pub fn history_target(&self, scope: u64) -> (at: Option<usize>)
        requires
            self.wf(),
        ensures
            match at {
                Some(i) => self.scoped(i as int, scope),
                None => forall|i: int| !(#[trigger] self.scoped(i, scope)),
            },
    {
        if scope > u32::MAX as u64 {
            return None;
        }
        self.position_of(scope as u32)
    }

    /// What a journal step leaves: the restored pixels in the layer the step
    /// belongs to, and that layer active. A step that belongs to no layer, or
    /// whose pixels do not fit it, changes nothing.
    pub open spec fn stepped(
        before: LayerStack,
        after: LayerStack,
        step: HistoryStep,
        label: Option<Seq<char>>,
    ) -> bool {
        &&& after.wf()
        &&& after.same_frame(before)
        &&& label is Some <==> exists|i: int| #[trigger]
            before.scoped(i, step.scope) && step.pixels.covers(before.columns(), before.rows())
                && step.pixels.sample_depth() == before.list()[i].rgba.sample_depth()
        &&& label matches Some(text) ==> {
            &&& text == step.label@
            &&& before.scoped(after.current(), step.scope)
            &&& after.list() == before.list().update(
                after.current(),
                Layer { rgba: step.pixels, ..before.list()[after.current()] },
            )
        }
        &&& label is None ==> after.list() == before.list() && after.current() == before.current()
    }

    fn apply_history(&mut self, step: HistoryStep) -> (label: Option<String>)
        requires
            old(self).wf(),
        ensures
            LayerStack::stepped(
                *old(self),
                *final(self),
                step,
                match label {
                    Some(s) => Some(s@),
                    None => None,
                },
            ),
    {
        let at: usize = match self.history_target(step.scope) {
            Some(i) => i,
            None => {
                return None;
            },
        };
        let ghost before = *self;
        proof {
            assert forall|i: int| #[trigger] before.scoped(i, step.scope) implies i == at by {
                if i < at {
                    assert(before.list()[i].id != before.list()[at as int].id);
                } else if at < i {
                    assert(before.list()[at as int].id != before.list()[i].id);
                }
            }
            assert(before.scoped(at as int, step.scope));
        }
        let want: u128 = canvas_bytes(self.width, self.height, step.pixels.bytes_per_pixel());
        if step.pixels.len() as u128 != want {
            return None;
        }
        if step.pixels.depth() != self.layers[at].rgba.depth() {
            return None;
        }
        self.layers[at].rgba = step.pixels;
        self.active = at;
        proof {
            assert(self.list() =~= before.list().update(at as int, self.list()[at as int]));
        }
        Some(step.label)
    }

    /// Revert a journaled pixel edit in the layer it was made on. Returns its
    /// label, or `None` when it could not be applied.
    pub fn undo(&mut self, step: HistoryStep) -> (label: Option<String>)
        requires
            old(self).wf(),
        ensures
            LayerStack::stepped(
                *old(self),
                *final(self),
                step,
                match label {
                    Some(s) => Some(s@),
                    None => None,
                },
            ),
    {
        self.apply_history(step)
    }

    /// Replay an undone pixel edit in the layer it was made on.
    pub fn redo(&mut self, step: HistoryStep) -> (label: Option<String>)
        requires
            old(self).wf(),
        ensures
            LayerStack::stepped(
                *old(self),
                *final(self),
                step,
                match label {
                    Some(s) => Some(s@),
                    None => None,
                },
            ),
    {
        self.apply_history(step)
    }
}

/// However often a smart object was rendered before, a render leaves the same
/// layer: the source survives every scale, so scaling down and back is
/// lossless.
pub proof fn rescaling_is_lossless(l: Layer, a: Pixels, small: Scalar, b: Pixels, large: Scalar)
    requires
        l.kind is Smart,
    ensures
        rendered_at(rendered_at(l, a, small), b, large) == rendered_at(l, b, large),
        rendered_at(l, a, small).kind->Smart_0.rgba == l.kind->Smart_0.rgba,
{
}

/// Removing a layer right after it was added leaves every other layer exactly
/// as it was: what an adjustment layer affects, it never modifies.
pub proof fn removing_an_added_layer_restores(list: Seq<Layer>, at: int, layer: Layer)
    requires
        0 <= at <= list.len(),
    ensures
        list.insert(at, layer).remove(at) == list,
{
    assert(list.insert(at, layer).remove(at) =~= list);
}

/// Undoing an edit restores the document byte for byte and lands in the layer
/// that was painted, wherever the selection has moved since.
pub proof fn an_edit_undoes_exactly(
    before: LayerStack,
    px: Pixels,
    edited: LayerStack,
    step: HistoryStep,
    undone: LayerStack,
    label: Option<Seq<char>>,
)
    requires
        before.wf(),
        edited.wf(),
        edited.same_frame(before),
        edited.list() == before.list().update(
            before.current(),
            Layer { rgba: px, ..before.list()[before.current()] },
        ),
        px.sample_depth() == before.list()[before.current()].rgba.sample_depth(),
        step.scope == before.list()[before.current()].id,
        step.pixels == before.list()[before.current()].rgba,
        LayerStack::stepped(edited, undone, step, label),
    ensures
        label == Some(step.label@),
        undone.list() == before.list(),
        undone.current() == before.current(),
{
    let c = before.current();
    assert(edited.scoped(c, step.scope));
    assert(before.list()[c].fits(before.columns(), before.rows()));
    let u = undone.current();
    if u < c {
        assert(edited.list()[u].id != edited.list()[c].id);
    } else if c < u {
        assert(edited.list()[c].id != edited.list()[u].id);
    }
    assert(undone.list() =~= before.list());
}

/// What selecting another layer leaves: the same layers on the same canvas.
pub open spec fn reselected(before: LayerStack, after: LayerStack) -> bool {
    &&& after.wf()
    &&& after.same_frame(before)
    &&& after.list() == before.list()
}

/// An edit, a change of selection, an undo, another change of selection and a
/// redo: the undo restores every layer and makes the painted one active, and
/// the redo brings the edit back there, whatever was selected in between.
pub proof fn undo_and_redo_follow_the_edited_layer(
    before: LayerStack,
    px: Pixels,
    record: EditRecord,
    edited: LayerStack,
    away: LayerStack,
    back: HistoryStep,
    undone: LayerStack,
    undo_label: Option<Seq<char>>,
    elsewhere: LayerStack,
    forth: HistoryStep,
    redone: LayerStack,
    redo_label: Option<Seq<char>>,
)
    requires
        before.wf(),
        edited.wf(),
        edited.same_frame(before),
        edited.list() == before.list().update(
            before.current(),
            Layer { rgba: px, ..before.list()[before.current()] },
        ),
        px.sample_depth() == before.list()[before.current()].rgba.sample_depth(),
        record.scope == before.list()[before.current()].id,
        record.before == before.list()[before.current()].rgba,
        reselected(edited, away),
        back.scope == record.scope,
        back.pixels == record.before,
        back.label@ == record.label@,
        LayerStack::stepped(away, undone, back, undo_label),
        reselected(undone, elsewhere),
        forth.scope == record.scope,
        forth.pixels == px,
        forth.label@ == record.label@,
        LayerStack::stepped(elsewhere, redone, forth, redo_label),
    ensures
        undo_label == Some(record.label@),
        undone.list() == before.list(),
        undone.current() == before.current(),
        redo_label == Some(record.label@),
        redone.list() == edited.list(),
        redone.current() == before.current(),
{
    let c = before.current();
    an_edit_undoes_exactly(before, px, away, back, undone, undo_label);
    assert(edited.list()[c].fits(edited.columns(), edited.rows()));
    assert(elsewhere.scoped(c, forth.scope));
    let r = redone.current();
    if r < c {
        assert(before.list()[r].id != before.list()[c].id);
    } else if c < r {
        assert(before.list()[c].id != before.list()[r].id);
    }
    assert(redone.list() =~= edited.list());
}

/// Redoing what was undone restores the edit byte for byte, in the layer that
/// was painted.
pub proof fn a_redo_restores_the_edit(
    edited: LayerStack,
    back: HistoryStep,
    undone: LayerStack,
    forth: HistoryStep,
    redone: LayerStack,
    undo_label: Seq<char>,
    redo_label: Option<Seq<char>>,
)
    requires
        edited.wf(),
        LayerStack::stepped(edited, undone, back, Some(undo_label)),
        forth.scope == back.scope,
        forth.pixels == edited.list()[undone.current()].rgba,
        LayerStack::stepped(undone, redone, forth, redo_label),
    ensures
        redo_label == Some(forth.label@),
        redone.list() == edited.list(),
        redone.current() == undone.current(),
{
    let c = undone.current();
    assert(edited.scoped(c, back.scope));
    assert(edited.list()[c].fits(edited.columns(), edited.rows()));
    let i = choose|i: int|
        #[trigger] edited.scoped(i, back.scope) && back.pixels.covers(
            edited.columns(),
            edited.rows(),
        ) && back.pixels.sample_depth() == edited.list()[i].rgba.sample_depth();
    assert(i == c) by {
        if i < c {
            assert(edited.list()[i].id != edited.list()[c].id);
        } else if c < i {
            assert(edited.list()[c].id != edited.list()[i].id);
        }
    }
    assert(undone.scoped(c, forth.scope));
    let r = redone.current();
    if r < c {
        assert(undone.list()[r].id != undone.list()[c].id);
    } else if c < r {
        assert(undone.list()[c].id != undone.list()[r].id);
    }
    assert(redone.list() =~= edited.list());
}

/// Switching a mask off and on again is a no-op: the coverage is kept.
pub proof fn a_disabled_mask_is_kept(list: Seq<Layer>, i: int)
    requires
        0 <= i < list.len(),
        list[i].mask_enabled,
    ensures
        ({
            let off = list.update(i, Layer { mask_enabled: false, ..list[i] });
            &&& off[i].mask == list[i].mask
            &&& off[i].applied_mask() is None
            &&& off.update(i, Layer { mask_enabled: true, ..off[i] }) == list
        }),
{
    let off = list.update(i, Layer { mask_enabled: false, ..list[i] });
    assert(off.update(i, Layer { mask_enabled: true, ..off[i] }) =~= list);
}

/// A product of coverages is the nearest byte to it, and grows with either.
pub proof fn a_product_of_coverages_is_the_nearest_byte(a: u8, b: u8, c: u8)
    requires
        b <= c,
    ensures
        -127 <= 255 * times(a, b) - a * b <= 127,
        times(a, b) <= times(a, c),
{
    assert(0 <= a * b <= a * c <= 255 * 255) by (nonlinear_arith)
        requires
            0 <= a <= 255,
            0 <= b <= c <= 255,
    ;
}

/// A copy lies right above what it was made of, with everything that it has but its
/// id and its name; no other layer changes, and the ones above move up by one.
pub proof fn a_copy_lies_above_its_layer(
    before: LayerStack,
    after: LayerStack,
    index: usize,
    at: Option<usize>,
    i: int,
)
    requires
        LayerStack::duplicated(before, after, index, at),
        index < before.list().len(),
        0 <= i < before.list().len(),
    ensures
        at == Some((index + 1) as usize),
        after.list().len() == before.list().len() + 1,
        after.list()[if i <= index {
            i
        } else {
            i + 1
        }] == before.list()[i],
        ({
            let (l, c) = (before.list()[index as int], after.list()[index + 1]);
            &&& c.rgba == l.rgba && c.mask == l.mask && c.mask_enabled == l.mask_enabled
            &&& c.opacity == l.opacity && c.blend == l.blend && c.clipped == l.clipped
            &&& c.visible == l.visible && c.locked == l.locked && c.kind == l.kind
            &&& c.id == before.fresh()
        }),
        after.current() == index + 1,
{
}

/// Removing a layer takes out that one: those below keep their places and those
/// above come down by one, none of them changed.
pub proof fn a_removal_takes_out_one_layer(
    before: LayerStack,
    after: LayerStack,
    index: usize,
    action: JournalAction,
    i: int,
)
    requires
        LayerStack::removed(before, after, index, Ok(action)),
        0 <= i < before.list().len(),
        i != index,
    ensures
        after.list().len() == before.list().len() - 1,
        after.list()[if i < index {
            i
        } else {
            i - 1
        }] == before.list()[i],
        action is Clear,
{
}

/// A move carries one layer and keeps the order of the others: those that it passes
/// shift by one towards where it came from, and moving it back restores the stack.
/// The layer that was active stays so.
pub proof fn a_move_carries_one_layer(
    before: LayerStack,
    after: LayerStack,
    from: usize,
    to: usize,
    back: LayerStack,
    i: int,
)
    requires
        LayerStack::reordered(before, after, from, to, Ok(())),
        LayerStack::reordered(after, back, to, from, Ok(())),
        0 <= i < before.list().len(),
    ensures
        after.list().len() == before.list().len(),
        after.list()[to as int] == before.list()[from as int],
        i != from ==> after.list()[if from < i <= to {
            i - 1
        } else if to <= i < from {
            i + 1
        } else {
            i
        }] == before.list()[i],
        after.list()[after.current()].id == before.list()[before.current()].id,
        back.list() == before.list(),
{
    assert(back.list() =~= before.list());
}

/// An edit of the active layer changes its pixels and nothing else, is on record with
/// the pixels from before, and undoes to the very stack that it found, whatever is
/// selected by then.
pub proof fn an_edit_changes_one_layer_and_undoes(
    before: LayerStack,
    after: LayerStack,
    label: Seq<char>,
    damage: Region,
    pixels: Pixels,
    record: EditRecord,
    away: LayerStack,
    step: HistoryStep,
    undone: LayerStack,
    answer: Option<Seq<char>>,
)
    requires
        before.wf(),
        after.wf(),
        after.same_frame(before),
        LayerStack::edited(before, after, label, damage, pixels, Ok(record)),
        reselected(after, away),
        step.scope == record.scope,
        step.pixels == record.before,
        step.label@ == record.label@,
        LayerStack::stepped(away, undone, step, answer),
    ensures
        after.list()[before.current()].rgba == pixels,
        forall|i: int|
            0 <= i < before.list().len() && i != before.current() ==> #[trigger] after.list()[i]
                == before.list()[i],
        !before.list()[before.current()].locked,
        answer == Some(label),
        undone.list() == before.list(),
        undone.current() == before.current(),
{
    an_edit_undoes_exactly(before, pixels, away, step, undone, answer);
}

/// A layer that is made anew shows whole: it is on, fully opaque, blended normally,
/// free to edit, and nothing masks or clips it.
pub proof fn a_new_layer_shows_whole(l: Layer, id: u32, name: Seq<char>)
    requires
        pristine(l, id, name),
    ensures
        l.visible && !l.locked && !l.clipped,
        l.opacity.bits == 0x3f80_0000,
        l.blend is Normal,
        l.applied_mask() is None,
        l.id == id && l.name@ == name,
        !(l.kind is Adjustment) ==> l.plain(),
{
}

/// A plate becomes the layer that its record describes: on unless it is hidden, of the
/// plate's own pixels, with its opacity as a fraction of 255, fully opaque at 255 and
/// gone at 0, and of its own name where it has one.
pub proof fn a_plate_becomes_its_layer(plate: Plate, i: int, l: Layer)
    requires
        plate_layer(plate, i, l),
    ensures
        l.kind is Pixels && l.id == i + 1,
        l.visible <==> !plate.hidden,
        l.rgba.stored() == plate.rgba@,
        plate.opacity == 255 ==> l.opacity.bits == 0x3f80_0000,
        plate.opacity == 0 ==> l.opacity.bits == 0,
        0 < plate.opacity < 255 ==> 0 < l.opacity.rank() <= 0x3f80_0000,
        plate.name@.len() > 0 ==> l.name@ == plate.name@,
        !l.locked && !l.clipped && l.applied_mask() is None,
        forall|m: BlendMode|
            crate::blend::key_number(plate.blend_key@) == #[trigger] m.psd_key() ==> l.blend == m,
{
    crate::scalar::byte_fraction_is_a_unit(plate.opacity);
}

/// A layer without a name is called by the default and its number.
pub proof fn a_nameless_layer_is_numbered(name: Seq<char>, default: Seq<char>, id: u32)
    ensures
        name.len() > 0 ==> named(name, default, id) == name,
        name.len() == 0 ==> named(name, default, id) == default + crate::strings::decimal(id as nat),
{
}

/// A layer that is made smart looks as it did, and is its own source at the scale one.
pub proof fn a_smart_layer_looks_as_it_did(l: Layer, width: u32, height: u32)
    ensures
        ({
            let n = smart_of(l, width, height);
            &&& n.rgba == l.rgba && n.id == l.id && n.name == l.name
            &&& n.visible == l.visible && n.locked == l.locked && n.clipped == l.clipped
            &&& n.opacity == l.opacity && n.blend == l.blend
            &&& n.mask == l.mask && n.mask_enabled == l.mask_enabled
            &&& n.kind matches LayerKind::Smart(s) && s.rgba == l.rgba && s.width == width
                && s.height == height && s.scale.bits == 0x3f80_0000
        }),
{
}

/// A setting that is made on a layer touches no other, moves nothing and keeps the
/// active layer; one that is made on no layer touches none.
pub proof fn a_setting_touches_one_layer(
    before: LayerStack,
    after: LayerStack,
    index: usize,
    layer: Layer,
    done: Result<(), IngestError>,
    i: int,
)
    requires
        LayerStack::replaced(before, after, index, layer, done),
        0 <= i < before.list().len(),
    ensures
        after.list().len() == before.list().len(),
        after.current() == before.current(),
        i != index ==> after.list()[i] == before.list()[i],
        i == index ==> after.list()[i] == layer,
        done is Ok <==> index < before.list().len(),
{
}

} // verus!
