//! Selection to path: the boundary of a selection as closed polygons.
//!
//! The contour runs along pixel edges, at integer coordinates, so that the
//! rectangle a marquee makes comes out as its four corners. Where to cut
//! partial coverage is the caller's choice, a threshold. A hole is a contour of
//! its own, told apart by its winding.
use crate::scalar::{Scalar, ZERO};
use crate::strings::{push_bool, push_decimal};
use vstd::prelude::*;

verus! {

/// A traced contour: a closed polygon on pixel edges, so that `(0, 0)` is the
/// top-left corner of the image and not the centre of its first pixel.
#[derive(Debug, Clone, PartialEq)]
pub struct Contour {
    pub points: Vec<(usize, usize)>,
    /// Whether the contour bounds a selected region; else it bounds a hole
    /// inside of one.
    pub outer: bool,
}

/// A contour as its points and its side.
#[verifier::ext_equal]
pub struct Outline {
    pub points: Seq<(usize, usize)>,
    pub outer: bool,
}

impl Contour {
    pub open spec fn outline(self) -> Outline {
        Outline { points: self.points@, outer: self.outer }
    }
}

/// The longest contour that is walked.
pub const LONGEST: u32 = 4194304;

/// A step of a walk: from the corner `(x, y)` in direction `dir`, with 0 to the
/// right, 1 down, 2 to the left and 3 up.
#[verifier::ext_equal]
pub struct Edge {
    pub x: int,
    pub y: int,
    pub dir: int,
}

impl Edge {
    /// The column of the corner that the step leads to.
    pub open spec fn to_x(self) -> int {
        if self.dir == 0 {
            self.x + 1
        } else if self.dir == 2 {
            self.x - 1
        } else {
            self.x
        }
    }

    /// The row of the corner that the step leads to.
    pub open spec fn to_y(self) -> int {
        if self.dir == 1 {
            self.y + 1
        } else if self.dir == 3 {
            self.y - 1
        } else {
            self.y
        }
    }

    /// The corner that the step starts from.
    pub open spec fn corner(self) -> (usize, usize) {
        (self.x as usize, self.y as usize)
    }
}

/// A selection cut at a threshold.
pub struct Mask {
    pub cells: Seq<u8>,
    pub w: int,
    pub h: int,
    pub threshold: u8,
}

impl Mask {
    /// Whether the pixel at `(x, y)` is selected; off the image none is.
    pub open spec fn has(self, x: int, y: int) -> bool {
        0 <= x < self.w && 0 <= y < self.h && self.cells[y * self.w + x] >= self.threshold
    }

    /// Whether a step runs along the boundary with the inside on its right.
    pub open spec fn boundary(self, e: Edge) -> bool {
        if e.dir == 0 {
            !self.has(e.x, e.y - 1) && self.has(e.x, e.y)
        } else if e.dir == 1 {
            !self.has(e.x, e.y) && self.has(e.x - 1, e.y)
        } else if e.dir == 2 {
            !self.has(e.x - 1, e.y) && self.has(e.x - 1, e.y - 1)
        } else {
            !self.has(e.x - 1, e.y - 1) && self.has(e.x, e.y - 1)
        }
    }

    /// The step after `e`: the first along the boundary of left, straight on,
    /// right and back.
    pub open spec fn after(self, e: Edge) -> Edge {
        let left = Edge { x: e.to_x(), y: e.to_y(), dir: (e.dir + 3) % 4 };
        let on = Edge { dir: e.dir, ..left };
        let right = Edge { dir: (e.dir + 1) % 4, ..left };
        if self.boundary(left) {
            left
        } else if self.boundary(on) {
            on
        } else if self.boundary(right) {
            right
        } else {
            Edge { dir: (e.dir + 2) % 4, ..left }
        }
    }

    /// The walk from `e` on, until it comes back to the corner `(sx, sy)` or
    /// has taken `most` steps.
    pub open spec fn walk(self, sx: int, sy: int, e: Edge, most: nat) -> Seq<Edge>
        decreases most,
    {
        if most == 0 {
            Seq::empty()
        } else if e.to_x() == sx && e.to_y() == sy {
            seq![e]
        } else {
            seq![e] + self.walk(sx, sy, self.after(e), (most - 1) as nat)
        }
    }

    /// The walk round the boundary that starts along the top of a pixel.
    pub open spec fn round(self, x: int, y: int) -> Seq<Edge> {
        self.walk(x, y, Edge { x, y, dir: 0 }, LONGEST as nat)
    }

    /// The corners of that walk.
    pub open spec fn corners(self, x: int, y: int) -> Seq<(usize, usize)> {
        self.round(x, y).map_values(|e: Edge| e.corner())
    }

    /// The contour of that walk.
    pub open spec fn contour<D: Fn((usize, usize), (usize, usize), (usize, usize)) -> Scalar>(
        self,
        x: int,
        y: int,
        distance: D,
        tolerance: Scalar,
    ) -> Outline {
        let points = self.corners(x, y);
        Outline {
            points: simplified(points, distance, tolerance),
            outer: area(points, points.len()) > 0,
        }
    }

    /// Whether the top of pixel `p` starts a contour: it is a boundary that no
    /// contour from the pixels before it runs along.
    pub open spec fn starts(self, p: int) -> bool
        decreases p,
    {
        let e = Edge { x: p % self.w, y: p / self.w, dir: 0 };
        &&& self.boundary(e)
        &&& forall|q: int|
            #![trigger self.walked(q, e)]
            0 <= q < p ==> !(self.starts(q) && self.walked(q, e))
    }

    /// Whether the walk from the top of pixel `q` runs along `e`.
    pub open spec fn walked(self, q: int, e: Edge) -> bool {
        self.round(q % self.w, q / self.w).contains(e)
    }

    /// The contours that start on the first `n` pixels, in reading order.
    pub open spec fn contours<D: Fn((usize, usize), (usize, usize), (usize, usize)) -> Scalar>(
        self,
        distance: D,
        tolerance: Scalar,
        n: nat,
    ) -> Seq<Outline>
        decreases n,
    {
        if n == 0 {
            Seq::empty()
        } else {
            let rest = self.contours(distance, tolerance, (n - 1) as nat);
            let (x, y) = ((n - 1) % self.w, (n - 1) / self.w);
            if self.starts(n - 1) && self.round(x, y).len() >= 3 {
                rest.push(self.contour(x, y, distance, tolerance))
            } else {
                rest
            }
        }
    }
}

/// Twice the signed area of a closed polygon, over its first `n` sides. With
/// rows running down, a contour with the inside on its right closes positive
/// round a region and negative round a hole.
pub open spec fn area(points: Seq<(usize, usize)>, n: nat) -> int
    decreases n,
{
    if n == 0 {
        0
    } else {
        let p = points[n - 1];
        let q = points[n as int % points.len() as int];
        area(points, (n - 1) as nat) + p.0 * q.1 - q.0 * p.1
    }
}

/// Whether a closure can stand for the distance of a point from the line through
/// two others, or from the point where they coincide: it takes any points and
/// gives one answer for them.
pub open spec fn measures<D: Fn((usize, usize), (usize, usize), (usize, usize)) -> Scalar>(distance: D) -> bool {
    &&& forall|p: (usize, usize), a: (usize, usize), b: (usize, usize)| #[trigger]
        distance.requires((p, a, b))
    &&& forall|p: (usize, usize), a: (usize, usize), b: (usize, usize), r: Scalar, s: Scalar|
        #[trigger] distance.ensures((p, a, b), r) && #[trigger] distance.ensures((p, a, b), s)
            ==> r == s
}

/// The distance of `p` from the line through `a` and `b`.
pub open spec fn gap<D: Fn((usize, usize), (usize, usize), (usize, usize)) -> Scalar>(
    distance: D,
    p: (usize, usize),
    a: (usize, usize),
    b: (usize, usize),
) -> Scalar {
    choose|r: Scalar| distance.ensures((p, a, b), r)
}

/// A tolerance; none where it is negative or not a number.
pub open spec fn floored(tolerance: Scalar) -> Scalar {
    if crate::scalar::zero().below(tolerance) {
        tolerance
    } else {
        crate::scalar::zero()
    }
}

/// Whether a point is further than `tolerance` from the line through `a` and `b`.
pub open spec fn apart<D: Fn((usize, usize), (usize, usize), (usize, usize)) -> Scalar>(
    distance: D,
    tolerance: Scalar,
    p: (usize, usize),
    a: (usize, usize),
    b: (usize, usize),
) -> bool {
    floored(tolerance).below(gap(distance, p, a, b))
}

/// The points that are kept of the first `n`: those apart from the line between
/// the last one kept (at first, the one before) and the next.
pub open spec fn kept<D: Fn((usize, usize), (usize, usize), (usize, usize)) -> Scalar>(
    points: Seq<(usize, usize)>,
    distance: D,
    tolerance: Scalar,
    n: nat,
) -> Seq<(usize, usize)>
    decreases n,
{
    if n == 0 {
        Seq::empty()
    } else {
        let so_far = kept(points, distance, tolerance, (n - 1) as nat);
        let len = points.len() as int;
        let prev = if so_far.len() == 0 {
            points[(n - 2 + len) % len]
        } else {
            so_far.last()
        };
        if apart(distance, tolerance, points[n - 1], prev, points[n as int % len]) {
            so_far.push(points[n - 1])
        } else {
            so_far
        }
    }
}

/// A contour without the points that lie within tolerance of their
/// neighbours' line; as it was, where less than a triangle would be left.
pub open spec fn simplified<D: Fn((usize, usize), (usize, usize), (usize, usize)) -> Scalar>(
    points: Seq<(usize, usize)>,
    distance: D,
    tolerance: Scalar,
) -> Seq<(usize, usize)> {
    let rest = kept(points, distance, tolerance, points.len());
    if points.len() >= 3 && rest.len() >= 3 {
        rest
    } else {
        points
    }
}

/// Whether walking from the corner `(x, y)` in `dir` runs along a boundary with
/// the inside on the right of travel.
pub fn edge_is_boundary<F: Fn(isize, isize) -> bool>(
    x: isize,
    y: isize,
    dir: usize,
    inside: &F,
) -> (yes: bool)
    requires
        x > isize::MIN,
        y > isize::MIN,
        forall|i: isize, j: isize| #[trigger] inside.requires((i, j)),
    ensures
        ({
            let (left, right): ((int, int), (int, int)) = if dir == 0 {
                ((x as int, y - 1), (x as int, y as int))
            } else if dir == 1 {
                ((x as int, y as int), (x - 1, y as int))
            } else if dir == 2 {
                ((x - 1, y as int), (x - 1, y - 1))
            } else {
                ((x - 1, y - 1), (x as int, y - 1))
            };
            if yes {
                &&& inside.ensures((left.0 as isize, left.1 as isize), false)
                &&& inside.ensures((right.0 as isize, right.1 as isize), true)
            } else {
                ||| inside.ensures((left.0 as isize, left.1 as isize), true)
                ||| inside.ensures((right.0 as isize, right.1 as isize), false)
            }
        }),
{
    let (left, right): ((isize, isize), (isize, isize)) = if dir == 0 {
        ((x, y - 1), (x, y))
    } else if dir == 1 {
        ((x, y), (x - 1, y))
    } else if dir == 2 {
        ((x - 1, y), (x - 1, y - 1))
    } else {
        ((x - 1, y - 1), (x, y - 1))
    };
    !inside(left.0, left.1) && inside(right.0, right.1)
}

/// A boundary never just ends: where it arrives at a corner, it goes on from
/// there, so that every contour is closed.
pub proof fn a_boundary_goes_on(mask: Mask, e: Edge)
    requires
        0 <= e.dir < 4,
        mask.boundary(e),
    ensures
        mask.boundary(mask.after(e)),
        mask.after(e).x == e.to_x(),
        mask.after(e).y == e.to_y(),
        0 <= mask.after(e).dir < 4,
{
}

/// A walk along the boundary stays on the boundary, goes from corner to
/// neighbouring corner, and comes back to where it began, unless it was cut
/// off at its longest.
pub proof fn a_walk_follows_the_boundary(mask: Mask, sx: int, sy: int, e: Edge, most: nat)
    requires
        0 <= e.dir < 4,
        mask.boundary(e),
        most > 0,
    ensures
        ({
            let edges = mask.walk(sx, sy, e, most);
            &&& 0 < edges.len() <= most
            &&& edges[0] == e
            &&& forall|i: int|
                0 <= i < edges.len() ==> 0 <= (#[trigger] edges[i]).dir < 4 && mask.boundary(
                    edges[i],
                )
            &&& forall|i: int|
                #![trigger edges[i]]
                0 < i < edges.len() ==> edges[i].x == edges[i - 1].to_x() && edges[i].y == edges[i
                    - 1].to_y()
            &&& edges.len() == most || (edges.last().to_x() == sx && edges.last().to_y() == sy)
        }),
    decreases most,
{
    if !(e.to_x() == sx && e.to_y() == sy) {
        a_boundary_goes_on(mask, e);
        let edges = mask.walk(sx, sy, e, most);
        if most > 1 {
            let rest = mask.walk(sx, sy, mask.after(e), (most - 1) as nat);
            a_walk_follows_the_boundary(mask, sx, sy, mask.after(e), (most - 1) as nat);
            assert(edges =~= seq![e] + rest);
            assert forall|i: int| 0 <= i < edges.len() implies 0 <= (#[trigger] edges[i]).dir < 4
                && mask.boundary(edges[i]) by {
                if i > 0 {
                    assert(edges[i] == rest[i - 1]);
                }
            }
            assert forall|i: int|
                #![trigger edges[i]]
                0 < i < edges.len() implies edges[i].x == edges[i - 1].to_x() && edges[i].y
                == edges[i - 1].to_y() by {
                assert(edges[i] == rest[i - 1]);
                if i > 1 {
                    assert(edges[i - 1] == rest[i - 2]);
                }
            }
            assert(edges.last() == rest.last());
        } else {
            assert(mask.walk(sx, sy, mask.after(e), 0) =~= Seq::empty());
            assert(edges =~= seq![e]);
        }
    }
}

/// Where nothing is selected, nothing is traced.
pub proof fn nothing_selected_traces_nothing<D: Fn((usize, usize), (usize, usize), (usize, usize)) -> Scalar>(
    mask: Mask,
    distance: D,
    tolerance: Scalar,
    n: nat,
)
    requires
        forall|x: int, y: int| !(#[trigger] mask.has(x, y)),
    ensures
        mask.contours(distance, tolerance, n) == Seq::<Outline>::empty(),
    decreases n,
{
    if n > 0 {
        nothing_selected_traces_nothing(mask, distance, tolerance, (n - 1) as nat);
        let e = Edge { x: (n - 1) % mask.w, y: (n - 1) / mask.w, dir: 0 };
        assert(!mask.has(e.x, e.y));
        assert(!mask.starts(n - 1));
    }
}

/// Simplifying only drops points.
pub proof fn simplifying_only_drops_points<D: Fn((usize, usize), (usize, usize), (usize, usize)) -> Scalar>(
    points: Seq<(usize, usize)>,
    distance: D,
    tolerance: Scalar,
    n: nat,
)
    requires
        n <= points.len(),
    ensures
        kept(points, distance, tolerance, n).len() <= n,
        forall|i: int|
            0 <= i < kept(points, distance, tolerance, n).len() ==> points.contains(
                #[trigger] kept(points, distance, tolerance, n)[i],
            ),
    decreases n,
{
    if n > 0 {
        simplifying_only_drops_points(points, distance, tolerance, (n - 1) as nat);
        assert(points.contains(points[n - 1]));
    }
}

/// Whether a step starts and ends on the image's corners.
spec fn on_grid(mask: Mask, e: Edge) -> bool {
    0 <= e.x <= mask.w && 0 <= e.y <= mask.h && 0 <= e.dir < 4
}

/// The number of a step among all the steps of the grid.
spec fn number(w: int, e: Edge) -> int {
    (e.y * (w + 1) + e.x) * 4 + e.dir
}

proof fn lemma_number(mask: Mask, e: Edge)
    requires
        on_grid(mask, e),
    ensures
        0 <= e.y * (mask.w + 1),
        0 <= number(mask.w, e) < (mask.w + 1) * (mask.h + 1) * 4,
        number(mask.w, e) / 4 % (mask.w + 1) == e.x,
        number(mask.w, e) / 4 / (mask.w + 1) == e.y,
        number(mask.w, e) % 4 == e.dir,
{
    crate::grid::lemma_pixel_index(e.x, e.y, mask.w + 1, mask.h + 1);
    assert(0 <= e.y * (mask.w + 1)) by (nonlinear_arith)
        requires
            0 <= e.y,
            0 <= mask.w,
    ;
}

/// Whether a walk that began on the first `p` pixels runs along `e`.
spec fn marked(mask: Mask, p: int, e: Edge) -> bool {
    exists|q: int| 0 <= q < p && mask.starts(q) && #[trigger] mask.walked(q, e)
}

fn at_boundary<F: Fn(isize, isize) -> bool>(
    x: isize,
    y: isize,
    dir: usize,
    inside: &F,
    mask: Ghost<Mask>,
) -> (yes: bool)
    requires
        0 <= x,
        0 <= y,
        dir < 4,
        forall|i: isize, j: isize| #[trigger] inside.requires((i, j)),
        forall|i: isize, j: isize, r: bool| #[trigger]
            inside.ensures((i, j), r) ==> r == mask@.has(i as int, j as int),
    ensures
        yes == mask@.boundary(Edge { x: x as int, y: y as int, dir: dir as int }),
{
    edge_is_boundary(x, y, dir, inside)
}

/// One boundary walk from `(sx, sy)` to the right, with the inside on the right
/// of travel. Marks every step it takes.
#[verifier::rlimit(40)]
fn walk<F: Fn(isize, isize) -> bool>(
    sx: isize,
    sy: isize,
    inside: &F,
    seen: &mut Vec<bool>,
    w: usize,
    h: usize,
    mask: Ghost<Mask>,
) -> (points: Vec<(usize, usize)>)
    requires
        mask@.w == w,
        mask@.h == h,
        w < isize::MAX,
        h < isize::MAX,
        old(seen)@.len() == (w + 1) * (h + 1) * 4,
        mask@.boundary(Edge { x: sx as int, y: sy as int, dir: 0 }),
        forall|i: isize, j: isize| #[trigger] inside.requires((i, j)),
        forall|i: isize, j: isize, r: bool| #[trigger]
            inside.ensures((i, j), r) ==> r == mask@.has(i as int, j as int),
    ensures
        points@ == mask@.corners(sx as int, sy as int),
        points@.len() <= LONGEST,
        forall|k: int|
            0 <= k < points@.len() ==> (#[trigger] points@[k]).0 <= w && points@[k].1 <= h,
        final(seen)@.len() == old(seen)@.len(),
        forall|e: Edge|
            #![trigger number(w as int, e)]
            on_grid(mask@, e) ==> final(seen)@[number(w as int, e)] == (old(seen)@[number(
                w as int,
                e,
            )] || mask@.round(sx as int, sy as int).contains(e)),
{
    let ghost m = mask@;
    let ghost (gx, gy) = (sx as int, sy as int);
    let ghost total = m.round(gx, gy);
    let ghost seen0 = seen@;
    let count: usize = seen.len();
    let mut points: Vec<(usize, usize)> = Vec::new();
    let (mut cx, mut cy): (isize, isize) = (sx, sy);
    let mut dir: usize = 0;
    let mut finished: bool = false;
    let mut i: u32 = 0;
    let ghost mut done: Seq<Edge> = Seq::empty();
    proof {
        assert(total =~= done + total);
    }
    while !finished && i < LONGEST
        invariant
            m == mask@,
            m.w == w,
            m.h == h,
            w < isize::MAX,
            h < isize::MAX,
            gx == sx,
            gy == sy,
            total == m.round(gx, gy),
            count == (w + 1) * (h + 1) * 4,
            seen@.len() == count,
            seen0.len() == count,
            i <= LONGEST,
            done.len() == i,
            0 <= dir < 4,
            finished ==> total == done,
            !finished ==> m.boundary(Edge { x: cx as int, y: cy as int, dir: dir as int }),
            !finished ==> total == done + m.walk(
                gx,
                gy,
                Edge { x: cx as int, y: cy as int, dir: dir as int },
                (LONGEST - i) as nat,
            ),
            points@ == done.map_values(|e: Edge| e.corner()),
            forall|k: int|
                0 <= k < points@.len() ==> (#[trigger] points@[k]).0 <= w && points@[k].1 <= h,
            forall|e: Edge|
                #![trigger number(w as int, e)]
                on_grid(m, e) ==> seen@[number(w as int, e)] == (seen0[number(w as int, e)]
                    || done.contains(e)),
            forall|i: isize, j: isize| #[trigger] inside.requires((i, j)),
            forall|i: isize, j: isize, r: bool| #[trigger]
                inside.ensures((i, j), r) ==> r == m.has(i as int, j as int),
        decreases LONGEST - i,
    {
        let ghost e = Edge { x: cx as int, y: cy as int, dir: dir as int };
        let ghost before = done;
        let ghost seen1 = seen@;
        proof {
            assert(on_grid(m, e));
            lemma_number(m, e);
            assert((w + 1) * (h + 1) * 4 == (m.w + 1) * (m.h + 1) * 4);
        }
        let at: usize = (cy as usize * (w + 1) + cx as usize) * 4 + dir;
        seen[at] = true;
        points.push((cx as usize, cy as usize));
        proof {
            done = before.push(e);
            assert(points@ =~= done.map_values(|e: Edge| e.corner()));
            assert forall|f: Edge|
                #![trigger number(w as int, f)]
                on_grid(m, f) implies seen@[number(w as int, f)] == (seen0[number(w as int, f)]
                || done.contains(f)) by {
                lemma_number(m, f);
                if f == e {
                    assert(done[before.len() as int] == e);
                } else {
                    if number(w as int, f) == number(w as int, e) {
                        assert(f =~= e);
                    }
                    assert(before.contains(f) ==> done.contains(f)) by {
                        if before.contains(f) {
                            let k = before.index_of(f);
                            assert(done[k] == f);
                        }
                    }
                    assert(done.contains(f) ==> before.contains(f)) by {
                        if done.contains(f) {
                            let k = done.index_of(f);
                            assert(before[k] == f);
                        }
                    }
                }
            }
        }
        if dir == 0 {
            cx = cx + 1;
        } else if dir == 1 {
            cy = cy + 1;
        } else if dir == 2 {
            cx = cx - 1;
        } else {
            cy = cy - 1;
        }
        i = i + 1;
        if cx == sx && cy == sy {
            finished = true;
            proof {
                assert(total =~= done);
            }
        } else {
            let (left, right, back): (usize, usize, usize) = (
                (dir + 3) % 4,
                (dir + 1) % 4,
                (dir + 2) % 4,
            );
            proof {
                a_boundary_goes_on(m, e);
            }
            dir = if at_boundary(cx, cy, left, inside, mask) {
                left
            } else if at_boundary(cx, cy, dir, inside, mask) {
                dir
            } else if at_boundary(cx, cy, right, inside, mask) {
                right
            } else {
                back
            };
            proof {
                let next = Edge { x: cx as int, y: cy as int, dir: dir as int };
                assert(next == m.after(e));
                assert(before + (seq![e] + m.walk(gx, gy, next, (LONGEST - i) as nat)) =~= done
                    + m.walk(gx, gy, next, (LONGEST - i) as nat));
            }
        }
    }
    proof {
        if !finished {
            assert(done + Seq::<Edge>::empty() =~= done);
        }
        assert(points@ =~= m.corners(gx, gy));
    }
    points
}

fn signed_area(points: &Vec<(usize, usize)>, w: usize, h: usize) -> (sum: i128)
    requires
        points@.len() <= LONGEST,
        forall|k: int|
            0 <= k < points@.len() ==> (#[trigger] points@[k]).0 <= w && points@[k].1 <= h,
        w * h <= usize::MAX,
    ensures
        sum == area(points@, points@.len()),
{
    let n: usize = points.len();
    let mut sum: i128 = 0;
    let mut i: usize = 0;
    while i < n
        invariant
            i <= n,
            n == points@.len(),
            n <= LONGEST,
            forall|k: int|
                0 <= k < points@.len() ==> (#[trigger] points@[k]).0 <= w && points@[k].1 <= h,
            w * h <= usize::MAX,
            sum == area(points@, i as nat),
            -0x1_0000_0000_0000_0000 * i <= sum <= 0x1_0000_0000_0000_0000 * i,
        decreases n - i,
    {
        let (x0, y0): (usize, usize) = points[i];
        let (x1, y1): (usize, usize) = points[(i + 1) % n];
        proof {
            assert(0 <= x0 * y1 <= w * h && 0 <= x1 * y0 <= w * h) by (nonlinear_arith)
                requires
                    0 <= x0 <= w,
                    0 <= x1 <= w,
                    0 <= y0 <= h,
                    0 <= y1 <= h,
            ;
        }
        sum = sum + (x0 as i128 * y1 as i128 - x1 as i128 * y0 as i128);
        i = i + 1;
    }
    sum
}

fn floor_tolerance(tolerance: Scalar) -> (tol: Scalar)
    ensures
        tol == floored(tolerance),
{
    let zero: Scalar = Scalar { bits: ZERO };
    if zero.lt(tolerance) {
        tolerance
    } else {
        zero
    }
}

/// Drop the points that lie within `tolerance` of the line between their
/// neighbours. At zero this still drops exactly collinear points, which is
/// what turns a rectangle's steps into four corners.
fn simplify_contour<D: Fn((usize, usize), (usize, usize), (usize, usize)) -> Scalar>(
    points: Vec<(usize, usize)>,
    distance: &D,
    tolerance: Scalar,
) -> (rest: Vec<(usize, usize)>)
    requires
        points@.len() <= LONGEST,
        measures(*distance),
    ensures
        rest@ == simplified(points@, *distance, tolerance),
{
    let n: usize = points.len();
    if n < 3 {
        return points;
    }
    let tol: Scalar = floor_tolerance(tolerance);
    let mut rest: Vec<(usize, usize)> = Vec::new();
    let mut i: usize = 0;
    while i < n
        invariant
            n == points@.len(),
            3 <= n <= LONGEST,
            i <= n,
            tol == floored(tolerance),
            measures(*distance),
            rest@ == kept(points@, *distance, tolerance, i as nat),
        decreases n - i,
    {
        let prev: (usize, usize) = if rest.len() == 0 {
            points[(i + n - 1) % n]
        } else {
            rest[rest.len() - 1]
        };
        let far: Scalar = distance(points[i], prev, points[(i + 1) % n]);
        if tol.lt(far) {
            rest.push(points[i]);
        }
        i = i + 1;
    }
    if rest.len() >= 3 {
        rest
    } else {
        points
    }
}

/// Trace every boundary of a selection, one byte per pixel in rows, cut at
/// `threshold`: a pixel is in when its coverage is at or above it. The
/// tolerance, in pixels, collapses nearly collinear runs; `distance` measures
/// how far a point is from the line through two others.
pub fn trace<D: Fn((usize, usize), (usize, usize), (usize, usize)) -> Scalar>(
    coverage: &[u8],
    width: usize,
    height: usize,
    threshold: u8,
    tolerance: Scalar,
    distance: &D,
) -> (out: Vec<Contour>)
    requires
        measures(*distance),
        traceable(coverage@, width as int, height as int),
    ensures
        out@.map_values(|c: Contour| c.outline()) == traced(
            coverage@,
            width as int,
            height as int,
            threshold,
            *distance,
            tolerance,
        ),
{
    let ghost m = Mask { cells: coverage@, w: width as int, h: height as int, threshold };
    let mut out: Vec<Contour> = Vec::new();
    proof {
        assert(out@.map_values(|c: Contour| c.outline()) =~= Seq::empty());
        assert(width == 0 || height == 0 ==> width * height == 0) by (nonlinear_arith);
        assert(0 <= width * height <= u128::MAX) by (nonlinear_arith)
            requires
                0 <= width < 0x1_0000_0000_0000_0000,
                0 <= height < 0x1_0000_0000_0000_0000,
        ;
    }
    if width == 0 || height == 0 || (coverage.len() as u128) < width as u128 * height as u128 {
        return out;
    }
    proof {
        assert(2 * (width + 1) <= (width + 1) * (height + 1) && 2 * (height + 1) <= (width + 1) * (
        height + 1) && width * height <= (width + 1) * (height + 1)) by (nonlinear_arith)
            requires
                0 < width,
                0 < height,
        ;
    }
    let n: usize = width * height;
    let inside = |x: isize, y: isize| -> (r: bool)
        ensures
            r == (Mask { cells: coverage@, w: width as int, h: height as int, threshold }).has(
                x as int,
                y as int,
            ),
        {
            if x < 0 || y < 0 || x >= width as isize || y >= height as isize {
                false
            } else {
                proof {
                    crate::grid::lemma_pixel_index(
                        x as int,
                        y as int,
                        width as int,
                        height as int,
                    );
                    assert(0 <= y * width) by (nonlinear_arith)
                        requires
                            0 <= y,
                            0 <= width,
                    ;
                }
                coverage[y as usize * width + x as usize] >= threshold
            }
        };
    let total: usize = (width + 1) * (height + 1) * 4;
    let mut seen: Vec<bool> = unmarked(total);
    proof {
        assert forall|e: Edge| #![trigger number(width as int, e)] on_grid(m, e) implies seen@[number(
            width as int,
            e,
        )] == marked(m, 0, e) by {
            lemma_number(m, e);
        }
    }
    let mut p: usize = 0;
    while p < n
        invariant
            m.cells == coverage@,
            m.w == width,
            m.h == height,
            0 < width < isize::MAX,
            0 < height < isize::MAX,
            measures(*distance),
            n == width * height,
            p <= n,
            seen@.len() == (width + 1) * (height + 1) * 4,
            (width + 1) * (height + 1) * 4 <= usize::MAX,
            out@.map_values(|c: Contour| c.outline()) == m.contours(*distance, tolerance, p as nat),
            forall|e: Edge|
                #![trigger number(width as int, e)]
                on_grid(m, e) ==> seen@[number(width as int, e)] == marked(m, p as int, e),
            forall|i: isize, j: isize| #[trigger] inside.requires((i, j)),
            forall|i: isize, j: isize, r: bool| #[trigger]
                inside.ensures((i, j), r) ==> r == m.has(i as int, j as int),
        decreases n - p,
    {
        let ghost seen1 = seen@;
        let ghost e = Edge { x: p as int % m.w, y: p as int / m.w, dir: 0 };
        proof {
            crate::grid::lemma_coordinates(p as int, width as int, height as int);
            lemma_number(m, e);
        }
        let (x, y): (usize, usize) = (p % width, p / width);
        let fresh: bool = !seen[(y * (width + 1) + x) * 4];
        let start: bool = at_boundary(x as isize, y as isize, 0, &inside, Ghost(m)) && fresh;
        proof {
            assert(start == m.starts(p as int)) by {
                if m.boundary(e) && fresh {
                    assert forall|q: int|
                        #![trigger m.walked(q, e)]
                        0 <= q < p implies !(m.starts(q) && m.walked(q, e)) by {
                        assert(!marked(m, p as int, e));
                    }
                }
                if m.starts(p as int) {
                    assert(!marked(m, p as int, e));
                }
            }
        }
        if start {
            let points: Vec<(usize, usize)> = walk(
                x as isize,
                y as isize,
                &inside,
                &mut seen,
                width,
                height,
                Ghost(m),
            );
            proof {
                assert forall|f: Edge|
                    #![trigger number(width as int, f)]
                    on_grid(m, f) implies seen@[number(width as int, f)] == marked(m, p + 1, f) by {
                    assert(seen1[number(width as int, f)] == marked(m, p as int, f));
                    assert(m.walked(p as int, f) == m.round(x as int, y as int).contains(f));
                    if marked(m, p as int, f) {
                        let q = choose|q: int|
                            0 <= q < p && m.starts(q) && #[trigger] m.walked(q, f);
                        assert(m.walked(q, f));
                    }
                }
            }
            if points.len() >= 3 {
                let outer: bool = signed_area(&points, width, height) > 0;
                let rest: Vec<(usize, usize)> = simplify_contour(points, distance, tolerance);
                let ghost before = out@.map_values(|c: Contour| c.outline());
                let ghost found = Contour { points: rest, outer };
                out.push(Contour { points: rest, outer });
                proof {
                    assert(out@.map_values(|c: Contour| c.outline()) =~= before.push(
                        found.outline(),
                    ));
                    assert(found.outline() =~= m.contour(x as int, y as int, *distance, tolerance));
                }
            }
        } else {
            proof {
                assert forall|f: Edge|
                    #![trigger number(width as int, f)]
                    on_grid(m, f) implies seen@[number(width as int, f)] == marked(m, p + 1, f) by {
                    assert(seen1[number(width as int, f)] == marked(m, p as int, f));
                    if marked(m, p as int, f) {
                        let q = choose|q: int|
                            0 <= q < p && m.starts(q) && #[trigger] m.walked(q, f);
                        assert(m.walked(q, f));
                    }
                }
            }
        }
        p = p + 1;
    }
    out
}

/// Whether the steps of the grid can be counted, where there is anything to
/// trace.
pub open spec fn traceable(coverage: Seq<u8>, width: int, height: int) -> bool {
    0 < width && 0 < height && coverage.len() >= width * height ==> (width + 1) * (height + 1) * 4
        <= usize::MAX
}

/// The contours of a selection; none where the bytes do not cover the image.
pub open spec fn traced<D: Fn((usize, usize), (usize, usize), (usize, usize)) -> Scalar>(
    coverage: Seq<u8>,
    width: int,
    height: int,
    threshold: u8,
    distance: D,
    tolerance: Scalar,
) -> Seq<Outline> {
    if coverage.len() < width * height {
        Seq::empty()
    } else {
        (Mask { cells: coverage, w: width, h: height, threshold }).contours(
            distance,
            tolerance,
            (width * height) as nat,
        )
    }
}

fn unmarked(n: usize) -> (flags: Vec<bool>)
    ensures
        flags@ == Seq::new(n as nat, |i: int| false),
{
    let mut flags: Vec<bool> = Vec::new();
    let mut i: usize = 0;
    while i < n
        invariant
            i <= n,
            flags@ == Seq::new(i as nat, |i: int| false),
        decreases n - i,
    {
        flags.push(false);
        i = i + 1;
        proof {
            assert(flags@ =~= Seq::new(i as nat, |i: int| false));
        }
    }
    flags
}

/// The first `n` points as JSON pairs, with commas between them.
pub open spec fn points_text(points: Seq<(usize, usize)>, n: nat) -> Seq<char>
    decreases n,
{
    if n == 0 {
        Seq::empty()
    } else {
        let p = points[n - 1];
        points_text(points, (n - 1) as nat) + crate::strings::separator(n) + "["@ + crate::strings::decimal(
            p.0 as nat,
        ) + ","@ + crate::strings::decimal(p.1 as nat) + "]"@
    }
}

/// One contour as a JSON object.
pub open spec fn outline_text(o: Outline) -> Seq<char> {
    "{\"outer\":"@ + crate::strings::bool_text(o.outer) + ",\"points\":["@ + points_text(
        o.points,
        o.points.len(),
    ) + "]}"@
}

/// The first `n` contours as JSON objects, with commas between them.
pub open spec fn outlines_text(list: Seq<Outline>, n: nat) -> Seq<char>
    decreases n,
{
    if n == 0 {
        Seq::empty()
    } else {
        outlines_text(list, (n - 1) as nat) + crate::strings::separator(n) + outline_text(list[n - 1])
    }
}

fn push_points(text: &mut String, points: &Vec<(usize, usize)>)
    ensures
        final(text)@ == old(text)@ + points_text(points@, points@.len()),
{
    let n: usize = points.len();
    let ghost before = text@;
    let mut i: usize = 0;
    proof {
        assert(before + points_text(points@, 0) =~= before);
    }
    while i < n
        invariant
            i <= n,
            n == points@.len(),
            text@ == before + points_text(points@, i as nat),
        decreases n - i,
    {
        if i > 0 {
            text.append(",");
        }
        text.append("[");
        push_decimal(text, points[i].0 as u128);
        text.append(",");
        push_decimal(text, points[i].1 as u128);
        text.append("]");
        i = i + 1;
        proof {
            assert(text@ =~= before + points_text(points@, i as nat));
        }
    }
}

fn push_contour(text: &mut String, c: &Contour)
    ensures
        final(text)@ == old(text)@ + outline_text(c.outline()),
{
    let ghost before = text@;
    text.append("{\"outer\":");
    push_bool(text, c.outer);
    text.append(",\"points\":[");
    push_points(text, &c.points);
    text.append("]}");
    proof {
        assert(text@ =~= before + outline_text(c.outline()));
    }
}

/// The traced contours as JSON: `[{outer, points: [[x, y], …]}]`.
pub fn trace_json<D: Fn((usize, usize), (usize, usize), (usize, usize)) -> Scalar>(
    coverage: &[u8],
    width: usize,
    height: usize,
    threshold: u8,
    tolerance: Scalar,
    distance: &D,
) -> (json: String)
    requires
        measures(*distance),
        traceable(coverage@, width as int, height as int),
    ensures
        ({
            let list = traced(coverage@, width as int, height as int, threshold, *distance, tolerance);
            json@ == "["@ + outlines_text(list, list.len()) + "]"@
        }),
{
    let contours: Vec<Contour> = trace(coverage, width, height, threshold, tolerance, distance);
    let ghost list = traced(coverage@, width as int, height as int, threshold, *distance, tolerance);
    let mut text: String = "[".to_owned();
    let n: usize = contours.len();
    let mut i: usize = 0;
    proof {
        assert(text@ =~= "["@ + outlines_text(list, 0));
        assert(list.len() == n);
    }
    while i < n
        invariant
            i <= n,
            n == contours@.len(),
            list == contours@.map_values(|c: Contour| c.outline()),
            text@ == "["@ + outlines_text(list, i as nat),
        decreases n - i,
    {
        if i > 0 {
            text.append(",");
        }
        push_contour(&mut text, &contours[i]);
        i = i + 1;
        proof {
            assert(list[i - 1] == contours@[i - 1].outline());
            assert(text@ =~= "["@ + outlines_text(list, i as nat));
        }
    }
    text.append("]");
    proof {
        assert(text@ =~= "["@ + outlines_text(list, list.len()) + "]"@);
    }
    text
}

/// A step along the boundary is one pixel long and has the inside on its right: with
/// the step's own course `(dx, dy)`, the pixel whose middle lies half a pixel to the
/// right of the step's middle is on the image and selected, and the one to the left is
/// off the image or not selected.
pub proof fn a_step_has_the_inside_on_its_right(mask: Mask, e: Edge, rx: int, ry: int, lx: int, ly: int)
    requires
        0 <= e.dir < 4,
        mask.boundary(e),
        2 * rx + 1 == e.x + e.to_x() - (e.to_y() - e.y),
        2 * ry + 1 == e.y + e.to_y() + (e.to_x() - e.x),
        2 * lx + 1 == e.x + e.to_x() + (e.to_y() - e.y),
        2 * ly + 1 == e.y + e.to_y() - (e.to_x() - e.x),
    ensures
        (e.to_x() - e.x) * (e.to_x() - e.x) + (e.to_y() - e.y) * (e.to_y() - e.y) == 1,
        0 <= rx < mask.w && 0 <= ry < mask.h && mask.cells[ry * mask.w + rx] >= mask.threshold,
        !(0 <= lx < mask.w && 0 <= ly < mask.h && mask.cells[ly * mask.w + lx] >= mask.threshold),
{
    if e.dir == 0 {
        assert(rx == e.x && ry == e.y && lx == e.x && ly == e.y - 1);
    } else if e.dir == 1 {
        assert(rx == e.x - 1 && ry == e.y && lx == e.x && ly == e.y);
    } else if e.dir == 2 {
        assert(rx == e.x - 1 && ry == e.y - 1 && lx == e.x - 1 && ly == e.y);
    } else {
        assert(rx == e.x && ry == e.y - 1 && lx == e.x - 1 && ly == e.y - 1);
    }
}

/// Where a walk can turn left it does, so that pixels that touch by a corner are held
/// by one contour.
pub proof fn a_walk_turns_left_first(mask: Mask, e: Edge, n: Edge)
    requires
        0 <= e.dir < 4,
        0 <= n.dir < 4,
        mask.boundary(e),
        mask.boundary(n),
        n.x == e.to_x(),
        n.y == e.to_y(),
        n.to_x() - n.x == e.to_y() - e.y,
        n.to_y() - n.y == e.x - e.to_x(),
    ensures
        mask.after(e) == n,
{
    assert(n.dir == (e.dir + 3) % 4);
}

/// A walk never goes back along the step that it has just taken.
pub proof fn a_walk_never_turns_back(mask: Mask, e: Edge)
    requires
        0 <= e.dir < 4,
        mask.boundary(e),
    ensures
        !(mask.after(e).to_x() == e.x && mask.after(e).to_y() == e.y),
{
    a_boundary_goes_on(mask, e);
}

/// The top of every selected pixel with none above it lies on a contour: one starts
/// there, or one that started before runs along it; never both.
pub proof fn every_top_lies_on_a_contour(mask: Mask, x: int, y: int)
    requires
        0 <= x < mask.w,
        0 <= y < mask.h,
        mask.cells[y * mask.w + x] >= mask.threshold,
        y > 0 ==> mask.cells[(y - 1) * mask.w + x] < mask.threshold,
    ensures
        !mask.starts(y * mask.w + x) <==> exists|q: int|
            0 <= q < y * mask.w + x && mask.starts(q) && #[trigger] mask.walked(
                q,
                Edge { x, y, dir: 0 },
            ),
{
    let p = y * mask.w + x;
    crate::grid::lemma_pixel_index(x, y, mask.w, mask.h);
    let e = Edge { x, y, dir: 0 };
    assert(p % mask.w == x && p / mask.w == y);
    assert(mask.boundary(e));
}

/// The area of a triangle is positive where its third point lies to the right of the
/// way from the first to the second, rows running down, and counts twice.
pub proof fn a_triangle_has_its_area(a: (usize, usize), b: (usize, usize), c: (usize, usize))
    ensures
        area(seq![a, b, c], 3) == (b.0 - a.0) * (c.1 - a.1) - (c.0 - a.0) * (b.1 - a.1),
{
    let s = seq![a, b, c];
    reveal_with_fuel(area, 4);
    assert(s[0] == a && s[1] == b && s[2] == c && s.len() == 3);
    assert(1int % 3 == 1 && 2int % 3 == 2 && 3int % 3 == 0);
    assert(area(s, 1) == a.0 * b.1 - b.0 * a.1);
    assert(area(s, 2) == area(s, 1) + b.0 * c.1 - c.0 * b.1);
    assert(area(s, 3) == area(s, 2) + c.0 * a.1 - a.0 * c.1);
    lemma_crossed(a.0 as int, a.1 as int, b.0 as int, b.1 as int, c.0 as int, c.1 as int);
}

proof fn lemma_crossed(ax: int, ay: int, bx: int, yb: int, cx: int, cy: int)
    ensures
        (bx - ax) * (cy - ay) - (cx - ax) * (yb - ay) == ax * yb - bx * ay + bx * cy - cx * yb + cx
            * ay - ax * cy,
{
    assert((bx - ax) * (cy - ay) == bx * cy - bx * ay - ax * cy + ax * ay) by (nonlinear_arith);
    assert((cx - ax) * (yb - ay) == cx * yb - cx * ay - ax * yb + ax * ay) by (nonlinear_arith);
}

/// A point of a contour is dropped exactly where its distance from the line between
/// the last point kept, or the point before the first, and the next point is within
/// the tolerance; a tolerance that is no positive number counts as none.
pub proof fn a_point_is_dropped_where_it_is_close<
    D: Fn((usize, usize), (usize, usize), (usize, usize)) -> Scalar,
>(
    points: Seq<(usize, usize)>,
    distance: D,
    tolerance: Scalar,
    i: int,
    prev: (usize, usize),
    next: (usize, usize),
    far: Scalar,
    limit: int,
)
    requires
        measures(distance),
        0 <= i < points.len(),
        ({
            let before = kept(points, distance, tolerance, i as nat);
            prev == (if before.len() > 0 {
                before[before.len() - 1]
            } else if i > 0 {
                points[i - 1]
            } else {
                points[points.len() - 1]
            })
        }),
        next == (if i + 1 < points.len() {
            points[i + 1]
        } else {
            points[0]
        }),
        distance.ensures((points[i], prev, next), far),
        !far.nan(),
        limit == (if !tolerance.nan() && tolerance.rank() > 0 {
            tolerance.rank()
        } else {
            0
        }),
    ensures
        far.rank() > limit ==> kept(points, distance, tolerance, (i + 1) as nat) == kept(
            points,
            distance,
            tolerance,
            i as nat,
        ).push(points[i]),
        far.rank() <= limit ==> kept(points, distance, tolerance, (i + 1) as nat) == kept(
            points,
            distance,
            tolerance,
            i as nat,
        ),
{
    let len = points.len() as int;
    let n = i + 1;
    if i > 0 {
        assert((n - 2 + len) % len == i - 1) by {
            vstd::arithmetic::div_mod::lemma_mod_add_multiples_vanish(i - 1, len);
            vstd::arithmetic::div_mod::lemma_small_mod((i - 1) as nat, len as nat);
        }
    } else {
        vstd::arithmetic::div_mod::lemma_small_mod((len - 1) as nat, len as nat);
    }
    if i + 1 < len {
        vstd::arithmetic::div_mod::lemma_small_mod(n as nat, len as nat);
    } else {
        vstd::arithmetic::div_mod::lemma_mod_self_0(len);
    }
    assert(gap(distance, points[i], prev, next) == far);
}

/// A contour of at least a triangle stays one: where fewer than three points would be
/// left, all of them stay.
pub proof fn a_contour_stays_a_contour<
    D: Fn((usize, usize), (usize, usize), (usize, usize)) -> Scalar,
>(points: Seq<(usize, usize)>, distance: D, tolerance: Scalar)
    ensures
        points.len() >= 3 ==> simplified(points, distance, tolerance).len() >= 3,
        points.len() < 3 ==> simplified(points, distance, tolerance) == points,
        kept(points, distance, tolerance, points.len()).len() >= 3 && points.len() >= 3 ==> simplified(
            points,
            distance,
            tolerance,
        ) == kept(points, distance, tolerance, points.len()),
        kept(points, distance, tolerance, points.len()).len() < 3 ==> simplified(
            points,
            distance,
            tolerance,
        ) == points,
{
}

} // verus!
