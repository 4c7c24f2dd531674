//! Setting type: where the glyphs of shaped lines go, and the ink they leave.
//!
//! Every line is measured before any is placed, because a line is aligned
//! against the widest one. A pen then walks each line; every glyph's outline is
//! collected at the pen, in device space, and the line's rules follow it. What
//! the segments rasterize to, and the arithmetic of a step, of an outline point
//! and of a rule, are the caller's.
use crate::scalar::{Scalar, ZERO};
use crate::text::{Glyph, RunStyle};
use vstd::prelude::*;

verus! {

/// A point in device space: x to the right, y down from the first baseline.
#[derive(Debug, Clone, Copy, PartialEq, Eq, Structural)]
pub struct Point {
    pub x: Scalar,
    pub y: Scalar,
}

/// The origin.
pub open spec fn origin() -> Point {
    Point { x: crate::scalar::zero(), y: crate::scalar::zero() }
}

// ── ink ──

/// A move of the pen along an outline.
#[derive(Debug, Clone, Copy, PartialEq, Eq, Structural)]
pub enum PenMove {
    MoveTo(Point),
    LineTo(Point),
    QuadTo(Point, Point),
    CurveTo(Point, Point, Point),
    Close,
}

/// A path segment.
#[derive(Debug, Clone, Copy, PartialEq, Eq, Structural)]
pub enum Seg {
    Line(Point, Point),
    Quad(Point, Point, Point),
    Cubic(Point, Point, Point, Point),
}

/// A box, as its least and its greatest coordinates.
#[derive(Debug, Clone, Copy, PartialEq, Eq, Structural)]
pub struct Bounds {
    pub min: Point,
    pub max: Point,
}

/// The greatest finite number; with the sign bit, the least.
pub const GREATEST: u32 = 0x7f7f_ffff;

pub const LEAST: u32 = 0xff7f_ffff;

/// The smaller of two numbers; the first where they do not compare.
pub open spec fn lesser(a: Scalar, b: Scalar) -> Scalar {
    if b.below(a) {
        b
    } else {
        a
    }
}

/// The greater of two numbers; the first where they do not compare.
pub open spec fn greater(a: Scalar, b: Scalar) -> Scalar {
    if a.below(b) {
        b
    } else {
        a
    }
}

fn min_of(a: Scalar, b: Scalar) -> (m: Scalar)
    ensures
        m == lesser(a, b),
{
    if b.lt(a) {
        b
    } else {
        a
    }
}

fn max_of(a: Scalar, b: Scalar) -> (m: Scalar)
    ensures
        m == greater(a, b),
{
    if a.lt(b) {
        b
    } else {
        a
    }
}

impl Bounds {
    /// The box of nothing: every point widens it.
    pub open spec fn nothing() -> Bounds {
        Bounds {
            min: Point { x: Scalar { bits: GREATEST }, y: Scalar { bits: GREATEST } },
            max: Point { x: Scalar { bits: LEAST }, y: Scalar { bits: LEAST } },
        }
    }

    /// The box with a point.
    pub open spec fn with(self, p: Point) -> Bounds {
        Bounds {
            min: Point { x: lesser(self.min.x, p.x), y: lesser(self.min.y, p.y) },
            max: Point { x: greater(self.max.x, p.x), y: greater(self.max.y, p.y) },
        }
    }

    fn widen(self, p: Point) -> (b: Bounds)
        ensures
            b == self.with(p),
    {
        Bounds {
            min: Point { x: min_of(self.min.x, p.x), y: min_of(self.min.y, p.y) },
            max: Point { x: max_of(self.max.x, p.x), y: max_of(self.max.y, p.y) },
        }
    }
}

/// Whether two points are the same place.
pub open spec fn same_place(a: Point, b: Point) -> bool {
    a.x.equals(b.x) && a.y.equals(b.y)
}

/// An outline as it is collected: the segments and the box so far, and where
/// the contour started and has got to.
pub struct Trail {
    pub segs: Seq<Seg>,
    pub bounds: Bounds,
    pub start: Point,
    pub cur: Point,
}

impl Trail {
    /// The trail after a move. A contour that does not end where it started is
    /// closed with a line: left open, it would bleed coverage across its rows.
    pub open spec fn after(self, m: PenMove) -> Trail {
        match m {
            PenMove::MoveTo(p) => Trail {
                segs: self.segs,
                bounds: self.bounds.with(p),
                start: p,
                cur: p,
            },
            PenMove::LineTo(p) => Trail {
                segs: self.segs.push(Seg::Line(self.cur, p)),
                bounds: self.bounds.with(p),
                start: self.start,
                cur: p,
            },
            PenMove::QuadTo(c, p) => Trail {
                segs: self.segs.push(Seg::Quad(self.cur, c, p)),
                bounds: self.bounds.with(c).with(p),
                start: self.start,
                cur: p,
            },
            PenMove::CurveTo(a, b, p) => Trail {
                segs: self.segs.push(Seg::Cubic(self.cur, a, b, p)),
                bounds: self.bounds.with(a).with(b).with(p),
                start: self.start,
                cur: p,
            },
            PenMove::Close => Trail {
                segs: if same_place(self.cur, self.start) {
                    self.segs
                } else {
                    self.segs.push(Seg::Line(self.cur, self.start))
                },
                bounds: self.bounds,
                start: self.start,
                cur: self.start,
            },
        }
    }

    /// The trail after the first `n` moves.
    pub open spec fn along(self, moves: Seq<PenMove>, n: nat) -> Trail
        decreases n,
    {
        if n == 0 {
            self
        } else {
            self.along(moves, (n - 1) as nat).after(moves[n - 1])
        }
    }
}

/// Collects outlines.
#[derive(Debug)]
pub struct Collector {
    segs: Vec<Seg>,
    bounds: Bounds,
    start: Point,
    cur: Point,
}

impl View for Collector {
    type V = Trail;

    closed spec fn view(&self) -> Trail {
        Trail { segs: self.segs@, bounds: self.bounds, start: self.start, cur: self.cur }
    }
}

impl Collector {
    pub fn new() -> (c: Collector)
        ensures
            c@ == (Trail {
                segs: Seq::empty(),
                bounds: Bounds::nothing(),
                start: origin(),
                cur: origin(),
            }),
    {
        let zero: Point = Point { x: Scalar { bits: ZERO }, y: Scalar { bits: ZERO } };
        Collector {
            segs: Vec::new(),
            bounds: Bounds {
                min: Point { x: Scalar { bits: GREATEST }, y: Scalar { bits: GREATEST } },
                max: Point { x: Scalar { bits: LEAST }, y: Scalar { bits: LEAST } },
            },
            start: zero,
            cur: zero,
        }
    }

    /// Begin another outline, with the pen at the origin.
    pub fn begin(&mut self)
        ensures
            final(self)@ == (Trail { start: origin(), cur: origin(), ..old(self)@ }),
    {
        let zero: Point = Point { x: Scalar { bits: ZERO }, y: Scalar { bits: ZERO } };
        self.start = zero;
        self.cur = zero;
    }

    pub fn move_to(&mut self, p: Point)
        ensures
            final(self)@ == old(self)@.after(PenMove::MoveTo(p)),
    {
        self.bounds = self.bounds.widen(p);
        self.start = p;
        self.cur = p;
    }

    pub fn line_to(&mut self, p: Point)
        ensures
            final(self)@ == old(self)@.after(PenMove::LineTo(p)),
    {
        self.bounds = self.bounds.widen(p);
        self.segs.push(Seg::Line(self.cur, p));
        self.cur = p;
    }

    pub fn quad_to(&mut self, c: Point, p: Point)
        ensures
            final(self)@ == old(self)@.after(PenMove::QuadTo(c, p)),
    {
        self.bounds = self.bounds.widen(c).widen(p);
        self.segs.push(Seg::Quad(self.cur, c, p));
        self.cur = p;
    }

    pub fn curve_to(&mut self, a: Point, b: Point, p: Point)
        ensures
            final(self)@ == old(self)@.after(PenMove::CurveTo(a, b, p)),
    {
        self.bounds = self.bounds.widen(a).widen(b).widen(p);
        self.segs.push(Seg::Cubic(self.cur, a, b, p));
        self.cur = p;
    }

    pub fn close(&mut self)
        ensures
            final(self)@ == old(self)@.after(PenMove::Close),
    {
        if !(self.cur.x.same(self.start.x) && self.cur.y.same(self.start.y)) {
            self.segs.push(Seg::Line(self.cur, self.start));
        }
        self.cur = self.start;
    }

    /// Follow an outline.
    pub fn follow(&mut self, moves: &Vec<PenMove>)
        ensures
            final(self)@ == old(self)@.along(moves@, moves@.len()),
    {
        let ghost first = self@;
        let n: usize = moves.len();
        let mut i: usize = 0;
        while i < n
            invariant
                i <= n,
                n == moves@.len(),
                self@ == first.along(moves@, i as nat),
            decreases n - i,
        {
            match moves[i] {
                PenMove::MoveTo(p) => self.move_to(p),
                PenMove::LineTo(p) => self.line_to(p),
                PenMove::QuadTo(c, p) => self.quad_to(c, p),
                PenMove::CurveTo(a, b, p) => self.curve_to(a, b, p),
                PenMove::Close => self.close(),
            }
            i = i + 1;
        }
    }

    pub fn segs(&self) -> (segs: &Vec<Seg>)
        ensures
            segs@ == self@.segs,
    {
        &self.segs
    }

    pub fn bounds(&self) -> (bounds: Bounds)
        ensures
            bounds == self@.bounds,
    {
        self.bounds
    }

    /// Draw one edge of a rule.
    fn edge(&mut self, a: Point, b: Point)
        ensures
            final(self)@ == (Trail {
                segs: old(self)@.segs.push(Seg::Line(a, b)),
                bounds: old(self)@.bounds.with(a).with(b),
                ..old(self)@
            }),
    {
        self.bounds = self.bounds.widen(a).widen(b);
        self.segs.push(Seg::Line(a, b));
    }
}

/// Following a contour from a move to its close leaves the pen where the
/// contour started: nothing is left open.
pub proof fn a_closed_contour_ends_where_it_started(t: Trail, p: Point, moves: Seq<PenMove>)
    requires
        forall|i: int| 0 <= i < moves.len() ==> !(#[trigger] moves[i] is MoveTo),
    ensures
        t.after(PenMove::MoveTo(p)).along(moves, moves.len()).after(PenMove::Close).cur == p,
{
    starts_stay(t.after(PenMove::MoveTo(p)), moves, moves.len());
}

proof fn starts_stay(t: Trail, moves: Seq<PenMove>, n: nat)
    requires
        n <= moves.len(),
        forall|i: int| 0 <= i < moves.len() ==> !(#[trigger] moves[i] is MoveTo),
    ensures
        t.along(moves, n).start == t.start,
    decreases n,
{
    if n > 0 {
        starts_stay(t, moves, (n - 1) as nat);
    }
}

// ── placing ──

/// Whether `pens` are the pens of a line: at `from`, then one step on behind
/// each glyph.
pub open spec fn walked<S: Fn(Point, Glyph) -> Point>(
    step: S,
    glyphs: Seq<Glyph>,
    from: Point,
    pens: Seq<Point>,
) -> bool {
    &&& pens.len() == glyphs.len() + 1
    &&& pens[0] == from
    &&& forall|k: int|
        0 <= k < glyphs.len() ==> step.ensures((pens[k], #[trigger] glyphs[k]), pens[k + 1])
}

/// Walk a line.
fn walk<S: Fn(Point, Glyph) -> Point>(glyphs: &Vec<Glyph>, from: Point, step: &S) -> (pens: Vec<
    Point,
>)
    requires
        forall|p: Point, g: Glyph| #[trigger] step.requires((p, g)),
    ensures
        walked(*step, glyphs@, from, pens@),
{
    let n: usize = glyphs.len();
    let mut pens: Vec<Point> = Vec::new();
    pens.push(from);
    let mut i: usize = 0;
    let mut pen: Point = from;
    while i < n
        invariant
            i <= n,
            n == glyphs@.len(),
            forall|p: Point, g: Glyph| #[trigger] step.requires((p, g)),
            pens@.len() == i + 1,
            pens@[0] == from,
            pens@[i as int] == pen,
            forall|k: int|
                0 <= k < i ==> step.ensures((pens@[k], #[trigger] glyphs@[k]), pens@[k + 1]),
        decreases n - i,
    {
        let next: Point = step(pen, glyphs[i]);
        pens.push(next);
        pen = next;
        i = i + 1;
    }
    pens
}

/// Whether a line is `width` wide: as far as the pen gets from the origin. An
/// empty line has no width.
pub open spec fn measures<S: Fn(Point, Glyph) -> Point>(
    step: S,
    line: Option<Vec<Glyph>>,
    width: Scalar,
) -> bool {
    match line {
        None => width == crate::scalar::zero(),
        Some(glyphs) => exists|pens: Seq<Point>| #[trigger]
            walked(step, glyphs@, origin(), pens) && pens.last().x == width,
    }
}

/// The greatest of zero and the first `n` widths.
pub open spec fn widest(widths: Seq<Scalar>, n: nat) -> Scalar
    decreases n,
{
    if n == 0 {
        crate::scalar::zero()
    } else {
        greater(widest(widths, (n - 1) as nat), widths[n - 1])
    }
}

/// A line with ink, placed.
#[derive(Debug)]
pub struct PlacedLine {
    /// The line's place in the layout.
    pub index: usize,
    /// The pen before each glyph, and behind the last.
    pub pens: Vec<Point>,
    /// Where each glyph's own origin lies.
    pub anchors: Vec<Point>,
}

/// Every line measured, and those with ink placed.
#[derive(Debug)]
pub struct Placement {
    pub widths: Vec<Scalar>,
    pub lines: Vec<PlacedLine>,
}

/// The lines with ink among the first `n`.
pub open spec fn with_ink(lines: Seq<Option<Vec<Glyph>>>, n: nat) -> Seq<int>
    decreases n,
{
    if n == 0 {
        Seq::empty()
    } else if lines[n - 1] is Some {
        with_ink(lines, (n - 1) as nat).push(n - 1)
    } else {
        with_ink(lines, (n - 1) as nat)
    }
}

/// Exactly the lines with ink are placed, from top to bottom; a blank line is
/// left out, and counts where the baselines of the others are taken.
pub proof fn placed_lines_keep_their_order(lines: Seq<Option<Vec<Glyph>>>, n: nat)
    requires
        n <= lines.len(),
    ensures
        forall|i: int| with_ink(lines, n).contains(i) <==> 0 <= i < n && lines[i] is Some,
        forall|j: int, k: int|
            0 <= j < k < with_ink(lines, n).len() ==> (#[trigger] with_ink(lines, n)[j]) < (
            #[trigger] with_ink(lines, n)[k]),
    decreases n,
{
    let all = with_ink(lines, n);
    if n > 0 {
        let rest = with_ink(lines, (n - 1) as nat);
        placed_lines_keep_their_order(lines, (n - 1) as nat);
        assert forall|i: int| all.contains(i) <==> 0 <= i < n && lines[i] is Some by {
            if 0 <= i < n && lines[i] is Some {
                if i == n - 1 {
                    assert(all[rest.len() as int] == i);
                } else {
                    let k = choose|k: int| 0 <= k < rest.len() && rest[k] == i;
                    assert(rest.contains(i));
                    assert(all[k] == i);
                }
            }
            if all.contains(i) {
                let k = choose|k: int| 0 <= k < all.len() && all[k] == i;
                if k < rest.len() {
                    assert(rest[k] == i);
                    assert(rest.contains(i));
                }
            }
        }
        assert forall|j: int, k: int| 0 <= j < k < all.len() implies (#[trigger] all[j]) < (
        #[trigger] all[k]) by {
            assert(j < rest.len() && all[j] == rest[j]);
            assert(rest.contains(rest[j]));
            if k < rest.len() {
                assert(all[k] == rest[k]);
            }
        }
    }
}

/// Whether a line starts where its alignment puts it: the slack is what it
/// lacks to the widest.
pub open spec fn starts<G: Fn(Scalar, Scalar) -> (Scalar, Scalar)>(
    slack: G,
    style: RunStyle,
    widest: Scalar,
    width: Scalar,
    x: Scalar,
) -> bool {
    exists|s: (Scalar, Scalar)| #[trigger]
        slack.ensures((widest, width), s) && x == style.start_of(s.0, s.1)
}

/// Whether a line is placed: its pen starts where its alignment and its
/// baseline put it, and each glyph is anchored at the pen it comes to.
pub open spec fn line_placed<
    S: Fn(Point, Glyph) -> Point,
    G: Fn(Scalar, Scalar) -> (Scalar, Scalar),
    B: Fn(Scalar, usize) -> Scalar,
    O: Fn(Point, Glyph) -> Point,
>(
    lines: Seq<Option<Vec<Glyph>>>,
    style: RunStyle,
    leading: Scalar,
    widths: Seq<Scalar>,
    step: S,
    slack: G,
    baseline: B,
    anchor: O,
    l: PlacedLine,
) -> bool {
    let i = l.index as int;
    let glyphs = lines[i]->0@;
    &&& 0 <= i < lines.len()
    &&& lines[i] is Some
    &&& starts(slack, style, widest(widths, widths.len()), widths[i], l.pens@[0].x)
    &&& baseline.ensures((leading, l.index), l.pens@[0].y)
    &&& walked(step, glyphs, l.pens@[0], l.pens@)
    &&& l.anchors@.len() == glyphs.len()
    &&& forall|k: int|
        0 <= k < glyphs.len() ==> anchor.ensures((l.pens@[k], glyphs[k]), #[trigger] l.anchors@[k])
}

/// Whether a placement is that of a layout's lines: every line measured, and
/// exactly those with ink placed, in order. An empty line still takes its
/// baseline.
pub open spec fn placed<
    S: Fn(Point, Glyph) -> Point,
    G: Fn(Scalar, Scalar) -> (Scalar, Scalar),
    B: Fn(Scalar, usize) -> Scalar,
    O: Fn(Point, Glyph) -> Point,
>(
    lines: Seq<Option<Vec<Glyph>>>,
    style: RunStyle,
    auto_leading: Scalar,
    step: S,
    slack: G,
    baseline: B,
    anchor: O,
    p: Placement,
) -> bool {
    &&& p.widths@.len() == lines.len()
    &&& forall|i: int| 0 <= i < lines.len() ==> measures(step, lines[i], #[trigger] p.widths@[i])
    &&& p.lines@.map_values(|l: PlacedLine| l.index as int) == with_ink(lines, lines.len())
    &&& forall|k: int|
        0 <= k < p.lines@.len() ==> line_placed(
            lines,
            style,
            style.line_height(auto_leading),
            p.widths@,
            step,
            slack,
            baseline,
            anchor,
            #[trigger] p.lines@[k],
        )
}

/// Measure every line.
fn measure<S: Fn(Point, Glyph) -> Point>(lines: &Vec<Option<Vec<Glyph>>>, step: &S) -> (widths: Vec<
    Scalar,
>)
    requires
        forall|p: Point, g: Glyph| #[trigger] step.requires((p, g)),
    ensures
        widths@.len() == lines@.len(),
        forall|i: int|
            0 <= i < lines@.len() ==> measures(*step, lines@[i], #[trigger] widths@[i]),
{
    let n: usize = lines.len();
    let zero: Point = Point { x: Scalar { bits: ZERO }, y: Scalar { bits: ZERO } };
    let mut widths: Vec<Scalar> = Vec::new();
    let mut i: usize = 0;
    while i < n
        invariant
            i <= n,
            n == lines@.len(),
            zero == origin(),
            forall|p: Point, g: Glyph| #[trigger] step.requires((p, g)),
            widths@.len() == i,
            forall|k: int| 0 <= k < i ==> measures(*step, lines@[k], #[trigger] widths@[k]),
        decreases n - i,
    {
        let width: Scalar = match &lines[i] {
            None => Scalar { bits: ZERO },
            Some(glyphs) => {
                let pens: Vec<Point> = walk(glyphs, zero, step);
                proof {
                    assert(walked(*step, glyphs@, origin(), pens@));
                    assert(pens@.last() == pens@[glyphs@.len() as int]);
                }
                pens[glyphs.len()].x
            },
        };
        widths.push(width);
        i = i + 1;
    }
    widths
}

fn greatest_width(widths: &Vec<Scalar>) -> (w: Scalar)
    ensures
        w == widest(widths@, widths@.len()),
{
    let n: usize = widths.len();
    let mut w: Scalar = Scalar { bits: ZERO };
    let mut i: usize = 0;
    while i < n
        invariant
            i <= n,
            n == widths@.len(),
            w == widest(widths@, i as nat),
        decreases n - i,
    {
        w = max_of(w, widths[i]);
        i = i + 1;
    }
    w
}

/// Anchor the glyphs of a line at its pens.
fn anchor_all<O: Fn(Point, Glyph) -> Point>(
    glyphs: &Vec<Glyph>,
    pens: &Vec<Point>,
    anchor: &O,
) -> (anchors: Vec<Point>)
    requires
        pens@.len() == glyphs@.len() + 1,
        forall|p: Point, g: Glyph| #[trigger] anchor.requires((p, g)),
    ensures
        anchors@.len() == glyphs@.len(),
        forall|k: int|
            0 <= k < glyphs@.len() ==> anchor.ensures(
                (pens@[k], glyphs@[k]),
                #[trigger] anchors@[k],
            ),
{
    let n: usize = glyphs.len();
    let mut anchors: Vec<Point> = Vec::new();
    let mut i: usize = 0;
    while i < n
        invariant
            i <= n,
            n == glyphs@.len(),
            pens@.len() == n + 1,
            forall|p: Point, g: Glyph| #[trigger] anchor.requires((p, g)),
            anchors@.len() == i,
            forall|k: int|
                0 <= k < i ==> anchor.ensures((pens@[k], glyphs@[k]), #[trigger] anchors@[k]),
        decreases n - i,
    {
        let at: Point = anchor(pens[i], glyphs[i]);
        anchors.push(at);
        i = i + 1;
    }
    anchors
}

/// Place the lines of a layout.
///
/// `step` moves the pen past a glyph, `slack` is what a width lacks to the
/// widest and half of that, `baseline` is the baseline of a line under a
/// leading, and `anchor` is where a glyph lies at a pen.
pub fn place<
    S: Fn(Point, Glyph) -> Point,
    G: Fn(Scalar, Scalar) -> (Scalar, Scalar),
    B: Fn(Scalar, usize) -> Scalar,
    O: Fn(Point, Glyph) -> Point,
>(
    lines: &Vec<Option<Vec<Glyph>>>,
    style: RunStyle,
    auto_leading: Scalar,
    step: &S,
    slack: &G,
    baseline: &B,
    anchor: &O,
) -> (p: Placement)
    requires
        forall|p: Point, g: Glyph| #[trigger] step.requires((p, g)),
        forall|a: Scalar, b: Scalar| #[trigger] slack.requires((a, b)),
        forall|a: Scalar, i: usize| #[trigger] baseline.requires((a, i)),
        forall|p: Point, g: Glyph| #[trigger] anchor.requires((p, g)),
    ensures
        placed(lines@, style, auto_leading, *step, *slack, *baseline, *anchor, p),
{
    let leading: Scalar = style.leading(auto_leading);
    let widths: Vec<Scalar> = measure(lines, step);
    let widest_width: Scalar = greatest_width(&widths);
    let n: usize = lines.len();
    let mut out: Vec<PlacedLine> = Vec::new();
    let mut i: usize = 0;
    proof {
        assert(out@.map_values(|l: PlacedLine| l.index as int) =~= with_ink(lines@, 0));
    }
    while i < n
        invariant
            i <= n,
            n == lines@.len(),
            n == widths@.len(),
            leading == style.line_height(auto_leading),
            widest_width == widest(widths@, widths@.len()),
            forall|p: Point, g: Glyph| #[trigger] step.requires((p, g)),
            forall|a: Scalar, b: Scalar| #[trigger] slack.requires((a, b)),
            forall|a: Scalar, i: usize| #[trigger] baseline.requires((a, i)),
            forall|p: Point, g: Glyph| #[trigger] anchor.requires((p, g)),
            out@.map_values(|l: PlacedLine| l.index as int) == with_ink(lines@, i as nat),
            forall|k: int|
                0 <= k < out@.len() ==> line_placed(
                    lines@,
                    style,
                    leading,
                    widths@,
                    *step,
                    *slack,
                    *baseline,
                    *anchor,
                    #[trigger] out@[k],
                ),
        decreases n - i,
    {
        if let Some(glyphs) = &lines[i] {
            let ghost before = out@;
            let s: (Scalar, Scalar) = slack(widest_width, widths[i]);
            let from: Point = Point { x: style.line_start(s.0, s.1), y: baseline(leading, i) };
            let pens: Vec<Point> = walk(glyphs, from, step);
            let anchors: Vec<Point> = anchor_all(glyphs, &pens, anchor);
            proof {
                assert(slack.ensures((widest_width, widths@[i as int]), s));
                assert(starts(*slack, style, widest_width, widths@[i as int], pens@[0].x));
            }
            out.push(PlacedLine { index: i, pens, anchors });
            proof {
                assert(out@.map_values(|l: PlacedLine| l.index as int) =~= before.map_values(
                    |l: PlacedLine| l.index as int,
                ).push(i as int));
            }
        }
        i = i + 1;
    }
    Placement { widths, lines: out }
}

// ── inking ──

/// The outline of a glyph, as the moves of the pen. An outline that the face
/// lacks has none; one that breaks off has those before the break.
#[derive(Debug)]
pub struct Outline {
    pub moves: Vec<PenMove>,
    pub complete: bool,
}

/// A sheet as it fills with ink.
pub struct Sheet {
    pub segs: Seq<Seg>,
    pub bounds: Bounds,
    /// The glyphs without a complete outline, up to the largest machine number.
    pub missing: usize,
}

impl Sheet {
    /// The sheet before any ink.
    pub open spec fn blank() -> Sheet {
        Sheet { segs: Seq::empty(), bounds: Bounds::nothing(), missing: 0 }
    }

    /// The sheet with an outline. What was drawn of a broken outline stays.
    pub open spec fn drawn(self, o: Outline) -> Sheet {
        let t = (Trail {
            segs: self.segs,
            bounds: self.bounds,
            start: origin(),
            cur: origin(),
        }).along(o.moves@, o.moves@.len());
        Sheet {
            segs: t.segs,
            bounds: t.bounds,
            missing: if o.complete || self.missing == usize::MAX {
                self.missing
            } else {
                (self.missing + 1) as usize
            },
        }
    }

    /// The sheet with the first `n` edges of the quadrilateral `c`.
    pub open spec fn edged(self, c: Seq<Point>, n: nat) -> Sheet
        decreases n,
    {
        if n == 0 {
            self
        } else {
            let so_far = self.edged(c, (n - 1) as nat);
            let (a, b) = (c[n - 1], c[n as int % 4]);
            Sheet {
                segs: so_far.segs.push(Seg::Line(a, b)),
                bounds: so_far.bounds.with(a).with(b),
                missing: so_far.missing,
            }
        }
    }

    /// Whether there is no ink to rasterize.
    pub open spec fn empty(self) -> bool {
        self.segs.len() == 0 || self.bounds.max.x.below(self.bounds.min.x)
    }
}

/// The glyph number that a face's outlines are looked up by.
pub open spec fn outline_number(id: u32) -> u16 {
    (id % 0x1_0000) as u16
}

/// Whether a glyph was drawn at a place.
pub open spec fn glyph_drawn<D: Fn(u16, Point) -> Outline>(
    outline: D,
    g: Glyph,
    at: Point,
    before: Sheet,
    after: Sheet,
) -> bool {
    exists|o: Outline| #[trigger]
        outline.ensures((outline_number(g.id), at), o) && after == before.drawn(o)
}

/// Whether `sheets` are the sheets of a line: each glyph, drawn at its anchor,
/// takes one to the next.
pub open spec fn glyph_run<D: Fn(u16, Point) -> Outline>(
    outline: D,
    glyphs: Seq<Glyph>,
    anchors: Seq<Point>,
    sheets: Seq<Sheet>,
) -> bool {
    &&& sheets.len() == glyphs.len() + 1
    &&& forall|k: int|
        0 <= k < glyphs.len() ==> glyph_drawn(
            outline,
            #[trigger] glyphs[k],
            anchors[k],
            sheets[k],
            sheets[k + 1],
        )
}

/// Whether glyphs were drawn at their anchors, one after the other.
pub open spec fn glyphs_drawn<D: Fn(u16, Point) -> Outline>(
    outline: D,
    glyphs: Seq<Glyph>,
    anchors: Seq<Point>,
    before: Sheet,
    after: Sheet,
) -> bool {
    exists|sheets: Seq<Sheet>| #[trigger]
        glyph_run(outline, glyphs, anchors, sheets) && sheets[0] == before && sheets.last() == after
}

/// The corners of an upright box, clockwise from its top left.
pub open spec fn corners(x0: Scalar, x1: Scalar, y0: Scalar, y1: Scalar) -> Seq<Point> {
    seq![
        Point { x: x0, y: y0 },
        Point { x: x1, y: y0 },
        Point { x: x1, y: y1 },
        Point { x: x0, y: y1 },
    ]
}

/// Whether `c` are the corners `q`, leaning: each on its own height.
pub open spec fn leaning<H: Fn(Point) -> Scalar>(shear: H, q: Seq<Point>, c: Seq<Point>) -> bool {
    &&& c.len() == 4
    &&& forall|i: int|
        0 <= i < 4 ==> (#[trigger] c[i]).y == q[i].y && shear.ensures((q[i],), c[i].x)
}

/// Whether a rule was drawn along a line, if the face has one: a closed box, as
/// long as the line, that leans with it.
pub open spec fn rule_drawn<
    R: Fn(bool, Scalar) -> Option<(Scalar, Scalar)>,
    E: Fn(Scalar, Scalar) -> Scalar,
    H: Fn(Point) -> Scalar,
>(
    rule: R,
    reach: E,
    shear: H,
    strike: bool,
    start: Point,
    end: Point,
    before: Sheet,
    after: Sheet,
) -> bool {
    exists|r: Option<(Scalar, Scalar)>| #[trigger]
        rule.ensures((strike, start.y), r) && match r {
            None => after == before,
            Some((y0, y1)) => exists|x1: Scalar, c: Seq<Point>|
                #![trigger reach.ensures((start.x, end.x), x1), leaning(shear, corners(start.x, x1, y0, y1), c)]
                reach.ensures((start.x, end.x), x1) && leaning(
                    shear,
                    corners(start.x, x1, y0, y1),
                    c,
                ) && after == before.edged(c, 4),
        }
}

/// Whether a line's ink is on the sheet: its glyphs, then its underline, then
/// its strikethrough, where the style asks for them.
pub open spec fn line_drawn<
    D: Fn(u16, Point) -> Outline,
    R: Fn(bool, Scalar) -> Option<(Scalar, Scalar)>,
    E: Fn(Scalar, Scalar) -> Scalar,
    H: Fn(Point) -> Scalar,
>(
    lines: Seq<Option<Vec<Glyph>>>,
    style: RunStyle,
    outline: D,
    rule: R,
    reach: E,
    shear: H,
    l: PlacedLine,
    before: Sheet,
    after: Sheet,
) -> bool {
    let glyphs = lines[l.index as int]->0@;
    exists|a: Sheet, b: Sheet|
        #![trigger glyphs_drawn(outline, glyphs, l.anchors@, before, a), ruled(style.underline, rule, reach, shear, false, l, a, b)]
        {
            &&& glyphs_drawn(outline, glyphs, l.anchors@, before, a)
            &&& ruled(style.underline, rule, reach, shear, false, l, a, b)
            &&& ruled(style.strikethrough, rule, reach, shear, true, l, b, after)
        }
}

/// Whether a rule that is asked for was drawn, and one that is not was not.
pub open spec fn ruled<
    R: Fn(bool, Scalar) -> Option<(Scalar, Scalar)>,
    E: Fn(Scalar, Scalar) -> Scalar,
    H: Fn(Point) -> Scalar,
>(
    wanted: bool,
    rule: R,
    reach: E,
    shear: H,
    strike: bool,
    l: PlacedLine,
    before: Sheet,
    after: Sheet,
) -> bool {
    if wanted {
        rule_drawn(rule, reach, shear, strike, l.pens@[0], l.pens@.last(), before, after)
    } else {
        after == before
    }
}

/// Whether `sheets` are the sheets of a text: each placed line takes one to the
/// next.
pub open spec fn line_run<
    D: Fn(u16, Point) -> Outline,
    R: Fn(bool, Scalar) -> Option<(Scalar, Scalar)>,
    E: Fn(Scalar, Scalar) -> Scalar,
    H: Fn(Point) -> Scalar,
>(
    lines: Seq<Option<Vec<Glyph>>>,
    style: RunStyle,
    outline: D,
    rule: R,
    reach: E,
    shear: H,
    placed: Seq<PlacedLine>,
    sheets: Seq<Sheet>,
) -> bool {
    &&& sheets.len() == placed.len() + 1
    &&& sheets[0] == Sheet::blank()
    &&& forall|k: int|
        0 <= k < placed.len() ==> line_drawn(
            lines,
            style,
            outline,
            rule,
            reach,
            shear,
            #[trigger] placed[k],
            sheets[k],
            sheets[k + 1],
        )
}

/// Whether the ink of placed lines is on a sheet, and no other.
pub open spec fn lines_drawn<
    D: Fn(u16, Point) -> Outline,
    R: Fn(bool, Scalar) -> Option<(Scalar, Scalar)>,
    E: Fn(Scalar, Scalar) -> Scalar,
    H: Fn(Point) -> Scalar,
>(
    lines: Seq<Option<Vec<Glyph>>>,
    style: RunStyle,
    outline: D,
    rule: R,
    reach: E,
    shear: H,
    placed: Seq<PlacedLine>,
    after: Sheet,
) -> bool {
    exists|sheets: Seq<Sheet>| #[trigger]
        line_run(lines, style, outline, rule, reach, shear, placed, sheets) && sheets.last()
            == after
}

/// Whether two styles place and ink lines alike: the same alignment and rules,
/// and the same distance between baselines.
pub open spec fn same_setting(a: RunStyle, b: RunStyle, auto_leading: Scalar) -> bool {
    &&& a.align == b.align
    &&& a.underline == b.underline
    &&& a.strikethrough == b.strikethrough
    &&& a.line_height(auto_leading) == b.line_height(auto_leading)
}

/// Styles that differ in nothing that counts place lines alike.
pub proof fn like_styles_place_alike<
    S: Fn(Point, Glyph) -> Point,
    G: Fn(Scalar, Scalar) -> (Scalar, Scalar),
    B: Fn(Scalar, usize) -> Scalar,
    O: Fn(Point, Glyph) -> Point,
>(
    lines: Seq<Option<Vec<Glyph>>>,
    a: RunStyle,
    b: RunStyle,
    auto_leading: Scalar,
    step: S,
    slack: G,
    baseline: B,
    anchor: O,
    p: Placement,
)
    requires
        same_setting(a, b, auto_leading),
        placed(lines, a, auto_leading, step, slack, baseline, anchor, p),
    ensures
        placed(lines, b, auto_leading, step, slack, baseline, anchor, p),
{
    let leading = a.line_height(auto_leading);
    assert forall|k: int| 0 <= k < p.lines@.len() implies line_placed(
        lines,
        b,
        leading,
        p.widths@,
        step,
        slack,
        baseline,
        anchor,
        #[trigger] p.lines@[k],
    ) by {
        let l = p.lines@[k];
        assert(line_placed(lines, a, leading, p.widths@, step, slack, baseline, anchor, l));
        let (wide, width) = (widest(p.widths@, p.widths@.len()), p.widths@[l.index as int]);
        let s = choose|s: (Scalar, Scalar)| #[trigger]
            slack.ensures((wide, width), s) && l.pens@[0].x == a.start_of(s.0, s.1);
        assert(slack.ensures((wide, width), s) && l.pens@[0].x == b.start_of(s.0, s.1));
    }
}

/// Styles that differ in nothing that counts ink lines alike.
pub proof fn like_styles_ink_alike<
    D: Fn(u16, Point) -> Outline,
    R: Fn(bool, Scalar) -> Option<(Scalar, Scalar)>,
    E: Fn(Scalar, Scalar) -> Scalar,
    H: Fn(Point) -> Scalar,
>(
    lines: Seq<Option<Vec<Glyph>>>,
    a: RunStyle,
    b: RunStyle,
    outline: D,
    rule: R,
    reach: E,
    shear: H,
    placed: Seq<PlacedLine>,
    after: Sheet,
)
    requires
        a.underline == b.underline,
        a.strikethrough == b.strikethrough,
        lines_drawn(lines, a, outline, rule, reach, shear, placed, after),
    ensures
        lines_drawn(lines, b, outline, rule, reach, shear, placed, after),
{
    let sheets = choose|sheets: Seq<Sheet>| #[trigger]
        line_run(lines, a, outline, rule, reach, shear, placed, sheets) && sheets.last() == after;
    assert forall|k: int| 0 <= k < placed.len() implies line_drawn(
        lines,
        b,
        outline,
        rule,
        reach,
        shear,
        #[trigger] placed[k],
        sheets[k],
        sheets[k + 1],
    ) by {
        assert(line_drawn(
            lines,
            a,
            outline,
            rule,
            reach,
            shear,
            placed[k],
            sheets[k],
            sheets[k + 1],
        ));
    }
    assert(line_run(lines, b, outline, rule, reach, shear, placed, sheets));
}

/// The ink of a text.
#[derive(Debug)]
pub struct Ink {
    pub collector: Collector,
    pub missing: usize,
}

impl View for Ink {
    type V = Sheet;

    open spec fn view(&self) -> Sheet {
        Sheet { segs: self.collector@.segs, bounds: self.collector@.bounds, missing: self.missing }
    }
}

impl Ink {
    /// Draw an outline.
    fn draw(&mut self, o: &Outline)
        ensures
            final(self)@ == old(self)@.drawn(*o),
    {
        self.collector.begin();
        self.collector.follow(&o.moves);
        if !o.complete && self.missing < usize::MAX {
            self.missing = self.missing + 1;
        }
    }

    /// Draw the glyphs of a line at their anchors.
    fn draw_glyphs<D: Fn(u16, Point) -> Outline>(
        &mut self,
        glyphs: &Vec<Glyph>,
        anchors: &Vec<Point>,
        outline: &D,
    )
        requires
            anchors@.len() == glyphs@.len(),
            forall|n: u16, p: Point| #[trigger] outline.requires((n, p)),
        ensures
            glyphs_drawn(*outline, glyphs@, anchors@, old(self)@, final(self)@),
    {
        let ghost mut sheets: Seq<Sheet> = seq![self@];
        let n: usize = glyphs.len();
        let mut i: usize = 0;
        while i < n
            invariant
                i <= n,
                n == glyphs@.len(),
                n == anchors@.len(),
                forall|n: u16, p: Point| #[trigger] outline.requires((n, p)),
                sheets.len() == i + 1,
                sheets[0] == old(self)@,
                sheets[i as int] == self@,
                forall|k: int|
                    0 <= k < i ==> glyph_drawn(
                        *outline,
                        #[trigger] glyphs@[k],
                        anchors@[k],
                        sheets[k],
                        sheets[k + 1],
                    ),
            decreases n - i,
        {
            let ghost mid = self@;
            let o: Outline = outline((glyphs[i].id % 0x1_0000) as u16, anchors[i]);
            self.draw(&o);
            proof {
                assert(outline.ensures((outline_number(glyphs@[i as int].id), anchors@[i as int]), o));
                assert(glyph_drawn(*outline, glyphs@[i as int], anchors@[i as int], mid, self@));
                sheets = sheets.push(self@);
            }
            i = i + 1;
        }
        proof {
            assert(glyph_run(*outline, glyphs@, anchors@, sheets));
        }
    }

    /// Draw a rule along a line.
    fn draw_rule<
        R: Fn(bool, Scalar) -> Option<(Scalar, Scalar)>,
        E: Fn(Scalar, Scalar) -> Scalar,
        H: Fn(Point) -> Scalar,
    >(&mut self, strike: bool, start: Point, end: Point, rule: &R, reach: &E, shear: &H)
        requires
            forall|b: bool, y: Scalar| #[trigger] rule.requires((b, y)),
            forall|a: Scalar, b: Scalar| #[trigger] reach.requires((a, b)),
            forall|p: Point| #[trigger] shear.requires((p,)),
        ensures
            rule_drawn(*rule, *reach, *shear, strike, start, end, old(self)@, final(self)@),
    {
        let ghost before = self@;
        let r: Option<(Scalar, Scalar)> = rule(strike, start.y);
        if let Some((y0, y1)) = r {
            let x1: Scalar = reach(start.x, end.x);
            let (q0, q1): (Point, Point) = (Point { x: start.x, y: y0 }, Point { x: x1, y: y0 });
            let (q2, q3): (Point, Point) = (Point { x: x1, y: y1 }, Point { x: start.x, y: y1 });
            let c0: Point = Point { x: shear(q0), y: y0 };
            let c1: Point = Point { x: shear(q1), y: y0 };
            let c2: Point = Point { x: shear(q2), y: y1 };
            let c3: Point = Point { x: shear(q3), y: y1 };
            self.collector.edge(c0, c1);
            self.collector.edge(c1, c2);
            self.collector.edge(c2, c3);
            self.collector.edge(c3, c0);
            proof {
                let c = seq![c0, c1, c2, c3];
                let q = corners(start.x, x1, y0, y1);
                assert forall|i: int| 0 <= i < 4 implies (#[trigger] c[i]).y == q[i].y
                    && shear.ensures((q[i],), c[i].x) by {
                    assert(q[0] == q0 && q[1] == q1 && q[2] == q2 && q[3] == q3);
                }
                assert(leaning(*shear, q, c));
                assert(reach.ensures((start.x, end.x), x1));
                reveal_with_fuel(Sheet::edged, 5);
                assert(self@.segs =~= before.edged(c, 4).segs);
                assert(self@ == before.edged(c, 4));
            }
        }
        proof {
            assert(rule.ensures((strike, start.y), r));
        }
    }
}

/// Collect the ink of placed lines.
///
/// `outline` is a glyph's outline at a place, `rule` is the upper and the lower
/// edge of the underline or of the strikethrough along a baseline, `reach` is
/// where a rule ends, and `shear` is where a point of a rule leans to.
pub fn ink<
    D: Fn(u16, Point) -> Outline,
    R: Fn(bool, Scalar) -> Option<(Scalar, Scalar)>,
    E: Fn(Scalar, Scalar) -> Scalar,
    H: Fn(Point) -> Scalar,
>(
    lines: &Vec<Option<Vec<Glyph>>>,
    style: RunStyle,
    placement: &Placement,
    outline: &D,
    rule: &R,
    reach: &E,
    shear: &H,
) -> (sheet: Ink)
    requires
        forall|k: int|
            0 <= k < placement.lines@.len() ==> {
                let l = #[trigger] placement.lines@[k];
                &&& l.index < lines@.len()
                &&& lines@[l.index as int] matches Some(g) && l.anchors@.len() == g@.len()
                &&& l.pens@.len() > 0
            },
        forall|n: u16, p: Point| #[trigger] outline.requires((n, p)),
        forall|b: bool, y: Scalar| #[trigger] rule.requires((b, y)),
        forall|a: Scalar, b: Scalar| #[trigger] reach.requires((a, b)),
        forall|p: Point| #[trigger] shear.requires((p,)),
    ensures
        lines_drawn(
            lines@,
            style,
            *outline,
            *rule,
            *reach,
            *shear,
            placement.lines@,
            sheet@,
        ),
{
    let mut sheet: Ink = Ink { collector: Collector::new(), missing: 0 };
    let n: usize = placement.lines.len();
    let mut i: usize = 0;
    proof {
        assert(sheet@ == Sheet::blank());
    }
    let ghost mut sheets: Seq<Sheet> = seq![sheet@];
    while i < n
        invariant
            i <= n,
            n == placement.lines@.len(),
            forall|k: int|
                0 <= k < placement.lines@.len() ==> {
                    let l = #[trigger] placement.lines@[k];
                    &&& l.index < lines@.len()
                    &&& lines@[l.index as int] matches Some(g) && l.anchors@.len() == g@.len()
                    &&& l.pens@.len() > 0
                },
            forall|n: u16, p: Point| #[trigger] outline.requires((n, p)),
            forall|b: bool, y: Scalar| #[trigger] rule.requires((b, y)),
            forall|a: Scalar, b: Scalar| #[trigger] reach.requires((a, b)),
            forall|p: Point| #[trigger] shear.requires((p,)),
            sheets.len() == i + 1,
            sheets[0] == Sheet::blank(),
            sheets[i as int] == sheet@,
            forall|k: int|
                0 <= k < i ==> line_drawn(
                    lines@,
                    style,
                    *outline,
                    *rule,
                    *reach,
                    *shear,
                    #[trigger] placement.lines@[k],
                    sheets[k],
                    sheets[k + 1],
                ),
        decreases n - i,
    {
        let l: &PlacedLine = &placement.lines[i];
        let ghost before = sheet@;
        if let Some(glyphs) = &lines[l.index] {
            sheet.draw_glyphs(glyphs, &l.anchors, outline);
        }
        let ghost a = sheet@;
        let (start, end): (Point, Point) = (l.pens[0], l.pens[l.pens.len() - 1]);
        if style.underline {
            sheet.draw_rule(false, start, end, rule, reach, shear);
        }
        let ghost b = sheet@;
        if style.strikethrough {
            sheet.draw_rule(true, start, end, rule, reach, shear);
        }
        proof {
            let glyphs = lines@[l.index as int]->0@;
            assert(glyphs_drawn(*outline, glyphs, l.anchors@, before, a));
            assert(ruled(style.underline, *rule, *reach, *shear, false, *l, a, b));
            assert(ruled(style.strikethrough, *rule, *reach, *shear, true, *l, b, sheet@));
            assert(line_drawn(
                lines@,
                style,
                *outline,
                *rule,
                *reach,
                *shear,
                *l,
                before,
                sheet@,
            ));
            sheets = sheets.push(sheet@);
        }
        i = i + 1;
    }
    proof {
        assert(line_run(
            lines@,
            style,
            *outline,
            *rule,
            *reach,
            *shear,
            placement.lines@,
            sheets,
        ));
    }
    sheet
}

/// A box with a point is the smallest that holds the box and the point.
pub proof fn a_box_grows_to_hold_a_point(b: Bounds, p: Point)
    requires
        !p.x.nan(),
        !p.y.nan(),
        !b.min.x.nan(),
        !b.min.y.nan(),
        !b.max.x.nan(),
        !b.max.y.nan(),
    ensures
        ({
            let c = b.with(p);
            &&& c.min.x.rank() <= p.x.rank() <= c.max.x.rank()
            &&& c.min.y.rank() <= p.y.rank() <= c.max.y.rank()
            &&& c.min.x.rank() <= b.min.x.rank() && b.max.x.rank() <= c.max.x.rank()
            &&& c.min.y.rank() <= b.min.y.rank() && b.max.y.rank() <= c.max.y.rank()
            &&& c.min.x == b.min.x || c.min.x == p.x
            &&& c.min.y == b.min.y || c.min.y == p.y
            &&& c.max.x == b.max.x || c.max.x == p.x
            &&& c.max.y == b.max.y || c.max.y == p.y
        }),
{
}

/// A pen draws without gaps: what a move adds starts where the pen is and ends where
/// it goes, with its control points in between, and closing a contour brings the pen
/// back to where the contour started.
pub proof fn a_pen_draws_without_gaps(t: Trail, m: PenMove)
    ensures
        ({
            let u = t.after(m);
            match m {
                PenMove::MoveTo(p) => u.segs == t.segs && u.start == p && u.cur == p,
                PenMove::LineTo(p) => u.segs == t.segs.push(Seg::Line(t.cur, p)) && u.cur == p
                    && u.start == t.start,
                PenMove::QuadTo(c, p) => u.segs == t.segs.push(Seg::Quad(t.cur, c, p)) && u.cur == p
                    && u.start == t.start,
                PenMove::CurveTo(a, b, p) => u.segs == t.segs.push(Seg::Cubic(t.cur, a, b, p))
                    && u.cur == p && u.start == t.start,
                PenMove::Close => {
                    &&& t.cur.x.equals(t.start.x) && t.cur.y.equals(t.start.y) ==> u.segs == t.segs
                    &&& !(t.cur.x.equals(t.start.x) && t.cur.y.equals(t.start.y)) ==> u.segs
                        == t.segs.push(Seg::Line(t.cur, t.start)) && u.cur == t.start
                    &&& u.start == t.start
                },
            }
        }),
{
}

/// The widest line is a line, or nothing, and no line is wider.
pub proof fn the_widest_line_is_as_wide_as_any(widths: Seq<Scalar>, n: nat, i: int)
    requires
        n <= widths.len(),
        0 <= i < n,
        forall|k: int| 0 <= k < n ==> !(#[trigger] widths[k]).nan(),
    ensures
        !widest(widths, n).nan(),
        widths[i].rank() <= widest(widths, n).rank(),
        0 <= widest(widths, n).rank(),
        widest(widths, n).bits == 0 || exists|k: int|
            0 <= k < n && #[trigger] widths[k] == widest(widths, n),
    decreases n,
{
    let m = (n - 1) as nat;
    assert(!widths[n - 1].nan());
    if m > 0 {
        the_widest_line_is_as_wide_as_any(widths, m, if i < m {
            i
        } else {
            0
        });
    }
    let w = widest(widths, n);
    if w != crate::scalar::zero() {
        if w == widths[n - 1] {
            assert(widths[n - 1] == w);
        } else {
            assert(w == widest(widths, m));
            let k = choose|k: int| 0 <= k < m && #[trigger] widths[k] == widest(widths, m);
            assert(widths[k] == w);
        }
    }
}

/// Lines align as their style says: left ones start together, right ones end
/// together, and centred ones have as much room before them as behind. `value` is
/// the number that a scalar stands for, and the slack of a line is what it lacks to
/// the widest, whole and halved.
pub proof fn lines_align_as_their_style_says<G: Fn(Scalar, Scalar) -> (Scalar, Scalar)>(
    slack: G,
    value: spec_fn(Scalar) -> int,
    style: RunStyle,
    widest: Scalar,
    width: Scalar,
    x: Scalar,
)
    requires
        starts(slack, style, widest, width, x),
        value(Scalar { bits: 0 }) == 0,
        forall|a: Scalar, b: Scalar, s: (Scalar, Scalar)| #[trigger]
            slack.ensures((a, b), s) ==> value(s.0) == value(a) - value(b) && 2 * value(s.1)
                == value(a) - value(b),
    ensures
        style.align is Left ==> value(x) == 0,
        style.align is Right ==> value(x) + value(width) == value(widest),
        style.align is Center ==> 2 * value(x) + value(width) == value(widest),
{
}

/// A rule is a closed box: its four sides follow on one another, and the last comes
/// back to the first.
pub proof fn a_rule_is_a_closed_box(before: Sheet, c: Seq<Point>)
    requires
        c.len() == 4,
    ensures
        before.edged(c, 4).segs == before.segs + seq![
            Seg::Line(c[0], c[1]),
            Seg::Line(c[1], c[2]),
            Seg::Line(c[2], c[3]),
            Seg::Line(c[3], c[0]),
        ],
        before.edged(c, 4).missing == before.missing,
{
    reveal_with_fuel(Sheet::edged, 5);
    assert(before.edged(c, 4).segs =~= before.segs + seq![
        Seg::Line(c[0], c[1]),
        Seg::Line(c[1], c[2]),
        Seg::Line(c[2], c[3]),
        Seg::Line(c[3], c[0]),
    ]);
}

/// A placed line hangs together: it starts on its own baseline, each glyph moves the
/// pen on from where the one before left it, and stands where the pen was.
pub proof fn a_placed_line_hangs_together<
    S: Fn(Point, Glyph) -> Point,
    G: Fn(Scalar, Scalar) -> (Scalar, Scalar),
    B: Fn(Scalar, usize) -> Scalar,
    O: Fn(Point, Glyph) -> Point,
>(
    lines: Seq<Option<Vec<Glyph>>>,
    style: RunStyle,
    auto_leading: Scalar,
    step: S,
    slack: G,
    baseline: B,
    anchor: O,
    p: Placement,
    i: int,
    k: int,
)
    requires
        placed(lines, style, auto_leading, step, slack, baseline, anchor, p),
        0 <= i < p.lines@.len(),
        0 <= k < p.lines@[i].anchors@.len(),
    ensures
        ({
            let l = p.lines@[i];
            let leading = match style.leading_px {
                Some(v) if v.finite() && v.rank() > 0 => v,
                _ => auto_leading,
            };
            &&& l.index < lines.len() && lines[l.index as int] is Some
            &&& baseline.ensures((leading, l.index), l.pens@[0].y)
            &&& step.ensures((l.pens@[k], lines[l.index as int]->0@[k]), l.pens@[k + 1])
            &&& anchor.ensures((l.pens@[k], lines[l.index as int]->0@[k]), l.anchors@[k])
        }),
{
    let l = p.lines@[i];
    assert(line_placed(
        lines,
        style,
        style.line_height(auto_leading),
        p.widths@,
        step,
        slack,
        baseline,
        anchor,
        l,
    ));
    let glyphs = lines[l.index as int]->0@;
    assert(glyphs[k] == glyphs[k]);
    assert(l.anchors@[k] == l.anchors@[k]);
}

/// A line gets the rules that its style asks for, and no other: each along the whole
/// of the line, from its first pen to its last, on the height that the face gives an
/// underline or a strikethrough there.
pub proof fn a_line_gets_the_rules_of_its_style<
    D: Fn(u16, Point) -> Outline,
    R: Fn(bool, Scalar) -> Option<(Scalar, Scalar)>,
    E: Fn(Scalar, Scalar) -> Scalar,
    H: Fn(Point) -> Scalar,
>(
    lines: Seq<Option<Vec<Glyph>>>,
    style: RunStyle,
    outline: D,
    rule: R,
    reach: E,
    shear: H,
    l: PlacedLine,
    before: Sheet,
    after: Sheet,
) -> (mid: (Sheet, Sheet))
    requires
        line_drawn(lines, style, outline, rule, reach, shear, l, before, after),
    ensures
        glyphs_drawn(outline, lines[l.index as int]->0@, l.anchors@, before, mid.0),
        !style.underline ==> mid.1 == mid.0,
        !style.strikethrough ==> after == mid.1,
        style.underline ==> rule_drawn(
            rule,
            reach,
            shear,
            false,
            l.pens@[0],
            l.pens@.last(),
            mid.0,
            mid.1,
        ),
        style.strikethrough ==> rule_drawn(
            rule,
            reach,
            shear,
            true,
            l.pens@[0],
            l.pens@.last(),
            mid.1,
            after,
        ),
{
    let glyphs = lines[l.index as int]->0@;
    let (a, b) = choose|a: Sheet, b: Sheet|
        #![trigger glyphs_drawn(outline, glyphs, l.anchors@, before, a), ruled(style.underline, rule, reach, shear, false, l, a, b)]
        {
            &&& glyphs_drawn(outline, glyphs, l.anchors@, before, a)
            &&& ruled(style.underline, rule, reach, shear, false, l, a, b)
            &&& ruled(style.strikethrough, rule, reach, shear, true, l, b, after)
        };
    (a, b)
}

/// A glyph without a complete outline is counted as missing, once, and one with it is
/// not.
pub proof fn a_broken_outline_is_counted(sheet: Sheet, o: Outline)
    requires
        sheet.missing < usize::MAX,
    ensures
        sheet.drawn(o).missing == sheet.missing + (if o.complete {
            0int
        } else {
            1
        }),
{
}

} // verus!
