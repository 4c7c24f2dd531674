//! Fill the selection: what a generator is dispatched with, and how its field
//! lands over the image.
//!
//! A fill is two device passes. The generator paints everywhere; its field is
//! then composited over the original through the selection's coverage. The
//! composite works on premultiplied pixels, so a backdrop that carries alpha is
//! associated first and dissociated after. Over an opaque backdrop both casts
//! are the identity and are skipped.
use crate::bridge::rgba8_to_f16;
use crate::coverage::SelectionCoverage;
use crate::errors::{unsupported, IngestError};
use crate::ingest::DecodedImage;
use crate::scalar::{Scalar, ONE};
use crate::strings::same_text;
use vstd::prelude::*;

verus! {

/// Which gradient generator a fill dispatches.
#[derive(Debug, Clone, Copy, PartialEq, Eq, Structural)]
pub enum GradientKind {
    Linear,
    Radial,
    Angular,
    Reflected,
    Diamond,
}

impl GradientKind {
    /// The kind's wire name.
    pub open spec fn wire(self) -> Seq<char> {
        match self {
            GradientKind::Linear => "linear"@,
            GradientKind::Radial => "radial"@,
            GradientKind::Angular => "angular"@,
            GradientKind::Reflected => "reflected"@,
            GradientKind::Diamond => "diamond"@,
        }
    }

    /// Decode the wire name.
    pub fn from_wire(s: &str) -> (kind: Option<GradientKind>)
        ensures
            kind matches Some(k) ==> k.wire() == s@,
            kind is None ==> forall|k: GradientKind| #[trigger] k.wire() != s@,
            forall|k: GradientKind| #[trigger] k.wire() == s@ ==> kind == Some(k),
    {
        let kind: Option<GradientKind> = if same_text(s, "linear") {
            Some(GradientKind::Linear)
        } else if same_text(s, "radial") {
            Some(GradientKind::Radial)
        } else if same_text(s, "angular") {
            Some(GradientKind::Angular)
        } else if same_text(s, "reflected") {
            Some(GradientKind::Reflected)
        } else if same_text(s, "diamond") {
            Some(GradientKind::Diamond)
        } else {
            None
        };
        proof {
            gradient_names_are_distinct();
            if let Some(k) = kind {
                assert(k.wire() == s@);
            }
        }
        kind
    }

    pub fn as_wire(self) -> (name: &'static str)
        ensures
            name@ == self.wire(),
    {
        match self {
            GradientKind::Linear => "linear",
            GradientKind::Radial => "radial",
            GradientKind::Angular => "angular",
            GradientKind::Reflected => "reflected",
            GradientKind::Diamond => "diamond",
        }
    }
}

/// No two gradient kinds share a wire name, so that a name decodes to the kind
/// that was encoded.
pub proof fn gradient_names_are_distinct()
    ensures
        forall|a: GradientKind, b: GradientKind| #[trigger]
            a.wire() == #[trigger] b.wire() ==> a == b,
{
    reveal_strlit("linear");
    reveal_strlit("radial");
    reveal_strlit("angular");
    reveal_strlit("reflected");
    reveal_strlit("diamond");
    assert forall|a: GradientKind, b: GradientKind| #[trigger] a.wire() == #[trigger]
        b.wire() implies a == b by {
        assert(a.wire().len() == b.wire().len());
        assert(a.wire()[0] == b.wire()[0]);
    }
}

/// What to paint into the selection. Colours are straight RGBA.
#[derive(Debug, Clone, Copy)]
pub enum FillSpec {
    /// A two-stop gradient.
    Gradient { kind: GradientKind, c0: [Scalar; 4], c1: [Scalar; 4] },
    /// Deterministic monochrome noise.
    Noise { amount: Scalar, seed: u32 },
    /// One colour everywhere.
    Solid { color: [Scalar; 4] },
}

/// The frame a gradient is derived from, in pixels: the selection's bounding
/// box, or the whole image when nothing is selected.
#[derive(Debug, Clone, Copy, PartialEq, Eq, Structural)]
pub struct FillGeometry {
    pub x: u32,
    pub y: u32,
    pub w: u32,
    pub h: u32,
}

impl FillGeometry {
    /// The frame for an image of extent `width × height` under `selection`.
    pub fn derive(width: u32, height: u32, selection: Option<&SelectionCoverage>) -> (frame:
        FillGeometry)
        ensures
            framed(
                width,
                height,
                match selection {
                    Some(c) => Some(*c),
                    None => None,
                },
                frame,
            ),
    {
        if let Some(c) = selection {
            if let Some(f) = c.bounds() {
                proof {
                    let y = choose|y: int| #[trigger] c.touches(f.x as int, y);
                    assert(c.touches(f.x as int, y));
                }
                return FillGeometry { x: f.x, y: f.y, w: f.w, h: f.h };
            }
        }
        FillGeometry { x: 0, y: 0, w: width, h: height }
    }

    /// Twice the centre, so that it is exact: `(2x + w, 2y + h)`.
    pub fn center2(&self) -> (center: (u64, u64))
        ensures
            center.0 == 2 * self.x + self.w,
            center.1 == 2 * self.y + self.h,
    {
        (2 * self.x as u64 + self.w as u64, 2 * self.y as u64 + self.h as u64)
    }

    /// Twice the half extent: the longer side, and at least one pixel. The
    /// radial and diamond ramps reach the frame's far edge with it.
    pub fn half_extent2(&self) -> (extent: u32)
        ensures
            extent >= 1,
            extent >= self.w,
            extent >= self.h,
            extent == 1 || extent == self.w || extent == self.h,
    {
        let longer: u32 = if self.w >= self.h {
            self.w
        } else {
            self.h
        };
        if longer >= 1 {
            longer
        } else {
            1
        }
    }
}

/// A generator and its geometry, in half pixels.
#[derive(Debug, Clone, Copy, PartialEq, Eq, Structural)]
pub enum Ramp {
    /// From one point to another.
    Linear { x0: u64, y0: u64, x1: u64, y1: u64 },
    /// Around a centre, out to a radius.
    Radial { cx: u64, cy: u64, radius: u64 },
    /// Around a centre, from angle zero.
    Angular { cx: u64, cy: u64 },
    /// Mirrored about a point, out to another.
    Reflected { x0: u64, y0: u64, x1: u64, y1: u64 },
    /// Around a centre, out to a half diagonal, at angle zero.
    Diamond { cx: u64, cy: u64, extent: u64 },
}

/// The ramp of a gradient over a frame: left to right and vertically centred
/// for the axial kinds, about the centre for the others.
pub open spec fn ramp_of(kind: GradientKind, f: FillGeometry, extent: int) -> Ramp {
    let (cx, cy) = ((2 * f.x + f.w) as u64, (2 * f.y + f.h) as u64);
    let right = (2 * f.x + 2 * f.w) as u64;
    match kind {
        GradientKind::Linear => Ramp::Linear { x0: (2 * f.x) as u64, y0: cy, x1: right, y1: cy },
        GradientKind::Radial => Ramp::Radial { cx, cy, radius: extent as u64 },
        GradientKind::Angular => Ramp::Angular { cx, cy },
        GradientKind::Reflected => Ramp::Reflected { x0: cx, y0: cy, x1: right, y1: cy },
        GradientKind::Diamond => Ramp::Diamond { cx, cy, extent: extent as u64 },
    }
}

/// The longer side of a frame, at least one pixel.
pub open spec fn reach(f: FillGeometry) -> int {
    let longer = if f.w >= f.h {
        f.w as int
    } else {
        f.h as int
    };
    if longer >= 1 {
        longer
    } else {
        1
    }
}

/// Derive the ramp of a gradient over a frame.
pub fn ramp(kind: GradientKind, f: &FillGeometry) -> (r: Ramp)
    ensures
        r == ramp_of(kind, *f, reach(*f)),
{
    let (cx, cy) = f.center2();
    let right: u64 = 2 * f.x as u64 + 2 * f.w as u64;
    let extent: u64 = f.half_extent2() as u64;
    match kind {
        GradientKind::Linear => Ramp::Linear { x0: 2 * f.x as u64, y0: cy, x1: right, y1: cy },
        GradientKind::Radial => Ramp::Radial { cx, cy, radius: extent },
        GradientKind::Angular => Ramp::Angular { cx, cy },
        GradientKind::Reflected => Ramp::Reflected { x0: cx, y0: cy, x1: right, y1: cy },
        GradientKind::Diamond => Ramp::Diamond { cx, cy, extent },
    }
}

/// Whether `out` is a straight colour premultiplied.
pub open spec fn premultiplied<P: Fn(Scalar, Scalar) -> Scalar>(
    product: P,
    c: [Scalar; 4],
    out: [Scalar; 4],
) -> bool {
    &&& product.ensures((c@[0], c@[3]), out@[0])
    &&& product.ensures((c@[1], c@[3]), out@[1])
    &&& product.ensures((c@[2], c@[3]), out@[2])
    &&& out@[3] == c@[3]
}

/// Premultiply a straight colour; the generators take premultiplied ones.
pub fn premul<P: Fn(Scalar, Scalar) -> Scalar>(c: [Scalar; 4], product: &P) -> (out: [Scalar; 4])
    requires
        forall|a: Scalar, b: Scalar| #[trigger] product.requires((a, b)),
    ensures
        premultiplied(*product, c, out),
{
    [product(c[0], c[3]), product(c[1], c[3]), product(c[2], c[3]), c[3]]
}

/// A generator and what it takes. Colours are premultiplied.
#[derive(Debug, Clone, Copy)]
pub enum Generator {
    Gradient { ramp: Ramp, c0: [Scalar; 4], c1: [Scalar; 4] },
    Noise { seed: u32, amount: Scalar },
    Solid { color: [Scalar; 4] },
}

/// Whether a frame is the one of an extent under a selection.
pub open spec fn framed(
    width: u32,
    height: u32,
    selection: Option<SelectionCoverage>,
    f: FillGeometry,
) -> bool {
    match selection {
        Some(c) if exists|x: int, y: int| #[trigger] c.touches(x, y) => c.bounded_by(
            crate::coverage::Frame { x: f.x, y: f.y, w: f.w, h: f.h },
        ),
        _ => f == (FillGeometry { x: 0, y: 0, w: width, h: height }),
    }
}

/// Whether a generator paints what is asked for, over a frame.
pub open spec fn generates<P: Fn(Scalar, Scalar) -> Scalar>(
    product: P,
    asked: FillSpec,
    f: FillGeometry,
    g: Generator,
) -> bool {
    match (asked, g) {
        (FillSpec::Gradient { kind, c0, c1 }, Generator::Gradient { ramp, c0: a, c1: b }) => {
            &&& ramp == ramp_of(kind, f, reach(f))
            &&& premultiplied(product, c0, a)
            &&& premultiplied(product, c1, b)
        },
        (FillSpec::Noise { amount, seed }, Generator::Noise { seed: s, amount: v }) => {
            s == seed && v == amount
        },
        (FillSpec::Solid { color }, Generator::Solid { color: c }) => {
            premultiplied(product, color, c)
        },
        _ => false,
    }
}

/// One dispatch of a fill.
#[derive(Debug, Clone, Copy)]
pub enum FillPass {
    /// Paint a field everywhere.
    Generate { generator: Generator },
    /// Associate the alpha of the backdrop.
    Premultiply,
    /// The field over the backdrop, through the selection where there is one.
    Compose { opacity: Scalar, masked: bool },
    /// Dissociate the alpha of the composite.
    Unpremultiply,
}

/// A fill, ready for the device.
#[derive(Debug)]
pub struct FillPlan {
    /// The image's working window, which is the backdrop.
    pub window: Vec<u8>,
    /// The dispatches, in order.
    pub passes: Vec<FillPass>,
}

/// The dispatches of a fill. The composite works on premultiplied pixels, so a
/// backdrop with alpha is bracketed by the casts; over an opaque one they are
/// the identity.
pub open spec fn fill_passes(g: Generator, opaque: bool, masked: bool) -> Seq<FillPass> {
    let paint = FillPass::Generate { generator: g };
    let compose = FillPass::Compose { opacity: crate::scalar::one(), masked };
    if opaque {
        seq![paint, compose]
    } else {
        seq![paint, FillPass::Premultiply, compose, FillPass::Unpremultiply]
    }
}

/// Whether a plan fills an image of this extent and content through a
/// selection.
pub open spec fn plans<P: Fn(Scalar, Scalar) -> Scalar>(
    product: P,
    width: u32,
    height: u32,
    pixels: Seq<u8>,
    asked: FillSpec,
    selection: Option<SelectionCoverage>,
    plan: FillPlan,
) -> bool {
    &&& plan.window@ == crate::bridge::widened(pixels)
    &&& exists|f: FillGeometry, g: Generator|
        #![trigger framed(width, height, selection, f), generates(product, asked, f, g)]
        framed(width, height, selection, f) && generates(product, asked, f, g) && plan.passes@
            == fill_passes(g, crate::saveback::all_opaque(pixels), selection is Some)
}

/// Whether every whole pixel of an RGBA8 buffer is opaque.
pub fn is_opaque(rgba: &[u8]) -> (yes: bool)
    ensures
        yes <==> crate::saveback::all_opaque(rgba@),
{
    let len: usize = rgba.len();
    let n: usize = len / 4;
    let mut i: usize = 0;
    while i < n
        invariant
            len == rgba@.len(),
            n == len / 4,
            i <= n,
            forall|p: int| 0 <= p < i ==> #[trigger] rgba@[4 * p + 3] == 255,
        decreases n - i,
    {
        if rgba[4 * i + 3] != 255 {
            assert(rgba@[4 * (i as int) + 3] != 255);
            return false;
        }
        i = i + 1;
    }
    true
}

/// Plan a fill of `image` through `selection`, or of the whole image when there
/// is none. An image without pixels is refused. The last window of the plan goes
/// back to straight RGBA8 over the bridge.
pub fn fill_rgba8<P: Fn(Scalar, Scalar) -> Scalar>(
    image: &DecodedImage,
    asked: &FillSpec,
    selection: Option<&SelectionCoverage>,
    product: &P,
) -> (plan: Result<FillPlan, IngestError>)
    requires
        forall|a: Scalar, b: Scalar| #[trigger] product.requires((a, b)),
    ensures
        plan is Ok <==> image.width > 0 && image.height > 0,
        plan matches Err(e) ==> e.is_unsupported("fill on an empty image"@),
        plan matches Ok(p) ==> plans(
            *product,
            image.width,
            image.height,
            image.bytes8(),
            *asked,
            match selection {
                Some(c) => Some(*c),
                None => None,
            },
            p,
        ),
{
    if image.width == 0 || image.height == 0 {
        return Err(unsupported("fill on an empty image"));
    }
    let frame: FillGeometry = FillGeometry::derive(image.width, image.height, selection);
    let view = image.rgba.to_rgba8();
    let opaque: bool = is_opaque(view.as_slice());
    let window: Vec<u8> = rgba8_to_f16(view.as_slice());
    let generator: Generator = match asked {
        FillSpec::Gradient { kind, c0, c1 } => Generator::Gradient {
            ramp: ramp(*kind, &frame),
            c0: premul(*c0, product),
            c1: premul(*c1, product),
        },
        FillSpec::Noise { amount, seed } => Generator::Noise { seed: *seed, amount: *amount },
        FillSpec::Solid { color } => Generator::Solid { color: premul(*color, product) },
    };
    let mut passes: Vec<FillPass> = Vec::new();
    passes.push(FillPass::Generate { generator });
    if !opaque {
        passes.push(FillPass::Premultiply);
    }
    passes.push(FillPass::Compose { opacity: Scalar { bits: ONE }, masked: selection.is_some() });
    if !opaque {
        passes.push(FillPass::Unpremultiply);
    }
    proof {
        let sel = match selection {
            Some(c) => Some(*c),
            None => None,
        };
        assert(framed(image.width, image.height, sel, frame));
        assert(generates(*product, *asked, frame, generator));
        assert(passes@ =~= fill_passes(
            generator,
            crate::saveback::all_opaque(image.bytes8()),
            sel is Some,
        ));
    }
    Ok(FillPlan { window, passes })
}

/// A gradient spans its frame, counted in half pixels: the linear one from the middle
/// of the left side to the middle of the right, the reflected one from the centre to
/// the middle of the right side, and the round ones about the centre, out to half of
/// the longer side, of at least one pixel.
pub proof fn a_gradient_spans_its_frame(kind: GradientKind, f: FillGeometry)
    ensures
        ({
            let (left, right) = (2 * f.x, 2 * (f.x + f.w));
            let (top, bottom) = (2 * f.y, 2 * (f.y + f.h));
            match ramp_of(kind, f, reach(f)) {
                Ramp::Linear { x0, y0, x1, y1 } => {
                    kind is Linear && x0 == left && x1 == right && 2 * y0 == top + bottom && y1 == y0
                },
                Ramp::Reflected { x0, y0, x1, y1 } => {
                    &&& kind is Reflected
                    &&& 2 * x0 == left + right
                    &&& x1 == right
                    &&& 2 * y0 == top + bottom
                    &&& y1 == y0
                },
                Ramp::Radial { cx, cy, radius } => {
                    &&& kind is Radial
                    &&& 2 * cx == left + right
                    &&& 2 * cy == top + bottom
                    &&& radius >= f.w && radius >= f.h && radius >= 1
                    &&& radius == f.w || radius == f.h || radius == 1
                },
                Ramp::Angular { cx, cy } => {
                    kind is Angular && 2 * cx == left + right && 2 * cy == top + bottom
                },
                Ramp::Diamond { cx, cy, extent } => {
                    &&& kind is Diamond
                    &&& 2 * cx == left + right
                    &&& 2 * cy == top + bottom
                    &&& extent >= f.w && extent >= f.h && extent >= 1
                    &&& extent == f.w || extent == f.h || extent == 1
                },
            }
        }),
{
}

/// A fill paints what was asked for and lays it over the image once: it generates
/// first, composes at full opacity, through the selection exactly where there is
/// one, and associates the alpha of the image before that, and dissociates it after,
/// exactly where some pixel is not opaque. The backdrop is the image itself.
pub proof fn a_fill_paints_and_then_composes<P: Fn(Scalar, Scalar) -> Scalar>(
    product: P,
    width: u32,
    height: u32,
    pixels: Seq<u8>,
    asked: FillSpec,
    selection: Option<SelectionCoverage>,
    plan: FillPlan,
)
    requires
        plans(product, width, height, pixels, asked, selection, plan),
    ensures
        ({
            let passes = plan.passes@;
            let clear = exists|p: int|
                0 <= p < pixels.len() / 4 && #[trigger] pixels[4 * p + 3] != 255;
            let at: int = if clear {
                2
            } else {
                1
            };
            &&& passes.len() == (if clear {
                4int
            } else {
                2
            })
            &&& passes[0] matches FillPass::Generate { generator } && (match (asked, generator) {
                (
                    FillSpec::Gradient { c0, c1, .. },
                    Generator::Gradient { c0: a, c1: b, .. },
                ) => {
                    &&& forall|k: int|
                        0 <= k < 3 ==> product.ensures((c0@[k], c0@[3]), #[trigger] a@[k])
                    &&& forall|k: int|
                        0 <= k < 3 ==> product.ensures((c1@[k], c1@[3]), #[trigger] b@[k])
                    &&& a@[3] == c0@[3] && b@[3] == c1@[3]
                },
                (FillSpec::Noise { amount, seed }, Generator::Noise { seed: s, amount: v }) => {
                    s == seed && v == amount
                },
                (FillSpec::Solid { color }, Generator::Solid { color: a }) => {
                    &&& forall|k: int|
                        0 <= k < 3 ==> product.ensures((color@[k], color@[3]), #[trigger] a@[k])
                    &&& a@[3] == color@[3]
                },
                _ => false,
            })
            &&& passes[at] matches FillPass::Compose { opacity, masked } && opacity.bits
                == 0x3f80_0000 && (masked <==> selection is Some)
            &&& clear ==> passes[1] is Premultiply && passes[3] is Unpremultiply
            &&& plan.window@ == crate::bridge::widened(pixels)
        }),
{
    let (f, g) = choose|f: FillGeometry, g: Generator|
        #![trigger framed(width, height, selection, f), generates(product, asked, f, g)]
        framed(width, height, selection, f) && generates(product, asked, f, g) && plan.passes@
            == fill_passes(g, crate::saveback::all_opaque(pixels), selection is Some);
    assert(crate::saveback::all_opaque(pixels) <==> !(exists|p: int|
        0 <= p < pixels.len() / 4 && #[trigger] pixels[4 * p + 3] != 255));
}

/// A fill is framed by what is selected, in a frame that holds every selected pixel and
/// has one on each of its sides; where nothing is selected, by the whole canvas.
pub proof fn a_fill_is_framed_by_its_selection(
    width: u32,
    height: u32,
    c: SelectionCoverage,
    f: FillGeometry,
    x: int,
    y: int,
)
    requires
        framed(width, height, Some(c), f),
    ensures
        0 <= x < c.columns() && 0 <= y < c.rows() && c.cells()[y * c.columns() + x] > 0 ==> {
            &&& f.x <= x < f.x + f.w
            &&& f.y <= y < f.y + f.h
            &&& exists|q: int| #[trigger] c.touches(f.x as int, q)
            &&& exists|q: int| #[trigger] c.touches(f.x + f.w - 1, q)
            &&& exists|q: int| #[trigger] c.touches(q, f.y as int)
            &&& exists|q: int| #[trigger] c.touches(q, f.y + f.h - 1)
        },
        (forall|i: int, j: int| !(#[trigger] c.touches(i, j))) ==> f.x == 0 && f.y == 0 && f.w == width
            && f.h == height,
{
    if 0 <= x < c.columns() && 0 <= y < c.rows() && c.cells()[y * c.columns() + x] > 0 {
        assert(c.touches(x, y));
        let g = crate::coverage::Frame { x: f.x, y: f.y, w: f.w, h: f.h };
        assert(c.bounded_by(g));
        assert(g.has(x, y));
    }
}

/// Without a selection a fill is framed by the whole canvas.
pub proof fn a_fill_without_a_selection_takes_the_canvas(width: u32, height: u32, f: FillGeometry)
    requires
        framed(width, height, None, f),
    ensures
        f.x == 0,
        f.y == 0,
        f.w == width,
        f.h == height,
{
}

} // verus!
