//! What traced contours enclose.
//!
//! A contour winds round a pixel as often as a ray straight up from the pixel's
//! centre crosses its sides, each crossing counted with the direction of the
//! side. Every step of the boundary lies on exactly one contour, so that all
//! contours together wind once round a selected pixel and not at all round any
//! other.
use crate::paths::{Edge, Mask, Outline};
use crate::scalar::Scalar;
use vstd::prelude::*;

verus! {

/// How the side from `p` to `q` crosses a ray straight up from the centre of
/// pixel `(px, py)`: one for a side that runs to the right, minus one for a side
/// that runs to the left.
pub open spec fn side(p: (usize, usize), q: (usize, usize), px: int, py: int) -> int {
    if p.1 == q.1 && p.1 <= py {
        if p.0 <= px < q.0 {
            1
        } else if q.0 <= px < p.0 {
            -1
        } else {
            0
        }
    } else {
        0
    }
}

/// The crossings of the first `n` sides of a closed polygon.
pub open spec fn crossings(points: Seq<(usize, usize)>, px: int, py: int, n: nat) -> int
    decreases n,
{
    if n == 0 {
        0
    } else {
        crossings(points, px, py, (n - 1) as nat) + side(
            points[n - 1],
            points[n as int % points.len() as int],
            px,
            py,
        )
    }
}

/// How often contours wind round pixel `(px, py)`.
pub open spec fn winding(list: Seq<Outline>, px: int, py: int) -> int
    decreases list.len(),
{
    if list.len() == 0 {
        0
    } else {
        let points = list.last().points;
        winding(list.drop_last(), px, py) + crossings(points, px, py, points.len())
    }
}

/// Whether `b` lies straight in direction `dir` from `a`.
pub open spec fn straight(a: (usize, usize), b: (usize, usize), dir: int) -> bool {
    if dir == 0 {
        b.1 == a.1 && a.0 < b.0
    } else if dir == 1 {
        b.0 == a.0 && a.1 < b.1
    } else if dir == 2 {
        b.1 == a.1 && b.0 < a.0
    } else {
        b.0 == a.0 && b.1 < a.1
    }
}

/// Whether a point is a corner of a `w` by `h` image.
pub open spec fn on_image(p: (usize, usize), w: int, h: int) -> bool {
    p.0 <= w && p.1 <= h
}

/// Whether a distance tells a turn from a straight run along the rows and columns
/// of a `w` by `h` image: a point between two others is off their line exactly
/// where the run through it turns.
pub open spec fn tells_turns<D: Fn((usize, usize), (usize, usize), (usize, usize)) -> Scalar>(distance: D, w: int, h: int) -> bool {
    forall|
        prev: (usize, usize),
        cur: (usize, usize),
        next: (usize, usize),
        dir: int,
        on: int,
    |
        #[trigger] straight(prev, cur, dir) && #[trigger] straight(cur, next, on) && on_image(
            prev,
            w,
            h,
        ) && on_image(cur, w, h) && on_image(next, w, h) && 0 <= dir < 4 && 0 <= on < 4 && on != (dir
            + 2) % 4 ==> (crate::scalar::zero().below(
            crate::paths::gap(distance, cur, prev, next),
        ) <==> on != dir)
}

/// Whether the walk from the top of pixel `p` comes back to its first step: it
/// was neither cut off nor ended at a corner that it comes through twice.
pub open spec fn closes(mask: Mask, p: int) -> bool {
    let steps = mask.round(p % mask.w, p / mask.w);
    mask.after(steps.last()) == steps[0]
}

spec fn one_if(b: bool) -> int {
    if b {
        1
    } else {
        0
    }
}

// ── the steps of a walk ──

proof fn lemma_after_unique(mask: Mask, a: Edge, b: Edge)
    requires
        0 <= a.dir < 4,
        0 <= b.dir < 4,
        mask.boundary(a),
        mask.boundary(b),
        mask.after(a) == mask.after(b),
    ensures
        a == b,
{
    crate::paths::a_boundary_goes_on(mask, a);
    crate::paths::a_boundary_goes_on(mask, b);
}

proof fn lemma_never_back(mask: Mask, e: Edge)
    requires
        0 <= e.dir < 4,
        mask.boundary(e),
    ensures
        mask.after(e).dir != (e.dir + 2) % 4,
{
    crate::paths::a_boundary_goes_on(mask, e);
}

proof fn lemma_walk(mask: Mask, sx: int, sy: int, e: Edge, most: nat)
    requires
        0 <= e.dir < 4,
        mask.boundary(e),
        most > 0,
    ensures
        ({
            let edges = mask.walk(sx, sy, e, most);
            &&& edges.len() > 0
            &&& edges[0] == e
            &&& forall|i: int|
                #![trigger edges[i]]
                0 < i < edges.len() ==> edges[i] == mask.after(edges[i - 1])
            &&& forall|i: int|
                #![trigger edges[i]]
                0 <= i < edges.len() - 1 ==> !(edges[i].to_x() == sx && edges[i].to_y() == sy)
        }),
    decreases most,
{
    if !(e.to_x() == sx && e.to_y() == sy) {
        crate::paths::a_boundary_goes_on(mask, e);
        let edges = mask.walk(sx, sy, e, most);
        let rest = mask.walk(sx, sy, mask.after(e), (most - 1) as nat);
        assert(edges =~= seq![e] + rest);
        if most > 1 {
            lemma_walk(mask, sx, sy, mask.after(e), (most - 1) as nat);
            assert forall|i: int| #![trigger edges[i]] 0 < i < edges.len() implies edges[i]
                == mask.after(edges[i - 1]) by {
                assert(edges[i] == rest[i - 1]);
                if i > 1 {
                    assert(edges[i - 1] == rest[i - 2]);
                }
            }
            assert forall|i: int| #![trigger edges[i]] 0 <= i < edges.len() - 1 implies !(
            edges[i].to_x() == sx && edges[i].to_y() == sy) by {
                if i > 0 {
                    assert(edges[i] == rest[i - 1]);
                }
            }
        } else {
            assert(rest =~= Seq::empty());
        }
    }
}

/// The first step from the top of pixel `p`.
spec fn top(mask: Mask, p: int) -> Edge {
    Edge { x: p % mask.w, y: p / mask.w, dir: 0 }
}

spec fn round(mask: Mask, p: int) -> Seq<Edge> {
    mask.round(p % mask.w, p / mask.w)
}

/// What a walk from the top of a boundary pixel is like.
spec fn well_walked(mask: Mask, steps: Seq<Edge>) -> bool {
    &&& steps.len() > 0
    &&& steps[0].dir == 0
    &&& forall|i: int|
        0 <= i < steps.len() ==> 0 <= (#[trigger] steps[i]).dir < 4 && mask.boundary(steps[i])
    &&& forall|i: int|
        #![trigger steps[i]]
        0 < i < steps.len() ==> steps[i] == mask.after(steps[i - 1])
    &&& forall|i: int|
        #![trigger steps[i]]
        0 <= i < steps.len() - 1 ==> !(steps[i].to_x() == steps[0].x && steps[i].to_y()
            == steps[0].y)
}

proof fn lemma_round(mask: Mask, p: int)
    requires
        mask.boundary(top(mask, p)),
    ensures
        well_walked(mask, round(mask, p)),
        round(mask, p)[0] == top(mask, p),
{
    let (x, y) = (p % mask.w, p / mask.w);
    let most = crate::paths::LONGEST as nat;
    crate::paths::a_walk_follows_the_boundary(mask, x, y, top(mask, p), most);
    lemma_walk(mask, x, y, top(mask, p), most);
}

proof fn lemma_back(mask: Mask, steps: Seq<Edge>, i: int, j: int)
    requires
        well_walked(mask, steps),
        0 <= i < j < steps.len(),
        steps[i] == steps[j],
    ensures
        steps[0] == steps[j - i],
    decreases i,
{
    if i > 0 {
        assert(steps[i] == mask.after(steps[i - 1]));
        assert(steps[j] == mask.after(steps[j - 1]));
        lemma_after_unique(mask, steps[i - 1], steps[j - 1]);
        lemma_back(mask, steps, i - 1, j - 1);
    }
}

proof fn lemma_no_step_twice(mask: Mask, steps: Seq<Edge>)
    requires
        well_walked(mask, steps),
    ensures
        steps.no_duplicates(),
{
    assert forall|i: int, j: int|
        0 <= i < steps.len() && 0 <= j < steps.len() && i != j implies steps[i] != steps[j] by {
        let (a, b) = if i < j {
            (i, j)
        } else {
            (j, i)
        };
        if steps[a] == steps[b] {
            lemma_back(mask, steps, a, b);
            let k = b - a;
            assert(steps[k] == mask.after(steps[k - 1]));
            crate::paths::a_boundary_goes_on(mask, steps[k - 1]);
            assert(steps[k - 1].to_x() == steps[0].x);
        }
    }
}

proof fn lemma_forward(mask: Mask, steps: Seq<Edge>, f: Edge)
    requires
        well_walked(mask, steps),
        mask.after(steps.last()) == steps[0],
        steps.contains(f),
    ensures
        steps.contains(mask.after(f)),
{
    let i = steps.index_of(f);
    if i + 1 < steps.len() {
        assert(steps[i + 1] == mask.after(steps[i]));
    } else {
        assert(steps[0] == mask.after(f));
    }
}

proof fn lemma_backward(mask: Mask, steps: Seq<Edge>, f: Edge)
    requires
        well_walked(mask, steps),
        mask.after(steps.last()) == steps[0],
        0 <= f.dir < 4,
        mask.boundary(f),
        steps.contains(mask.after(f)),
    ensures
        steps.contains(f),
{
    let i = steps.index_of(mask.after(f));
    if i > 0 {
        assert(steps[i] == mask.after(steps[i - 1]));
        lemma_after_unique(mask, f, steps[i - 1]);
        assert(steps[i - 1] == f);
    } else {
        lemma_after_unique(mask, f, steps.last());
        assert(steps[steps.len() - 1] == f);
    }
}

// ── every step is walked once ──

/// The step `k` steps after `e`.
spec fn later(mask: Mask, e: Edge, k: nat) -> Edge
    decreases k,
{
    if k == 0 {
        e
    } else {
        later(mask, mask.after(e), (k - 1) as nat)
    }
}

/// How long a boundary can still run straight down or up.
spec fn rank(mask: Mask, e: Edge) -> int {
    if e.dir == 1 {
        2 + mask.h - e.y
    } else if e.dir == 3 {
        2 + e.y
    } else {
        0
    }
}

/// A boundary comes to run to the right.
proof fn lemma_turns_right(mask: Mask, e: Edge) -> (k: nat)
    requires
        0 <= e.dir < 4,
        mask.boundary(e),
    ensures
        later(mask, e, k).dir == 0,
        mask.boundary(later(mask, e, k)),
    decreases e.x, rank(mask, e),
{
    if e.dir == 0 {
        0
    } else {
        let next = mask.after(e);
        crate::paths::a_boundary_goes_on(mask, e);
        lemma_never_back(mask, e);
        let k = lemma_turns_right(mask, next);
        assert(later(mask, e, k + 1) == later(mask, next, k));
        k + 1
    }
}

proof fn lemma_contains_earlier(mask: Mask, steps: Seq<Edge>, f: Edge, k: nat)
    requires
        well_walked(mask, steps),
        mask.after(steps.last()) == steps[0],
        0 <= f.dir < 4,
        mask.boundary(f),
        steps.contains(later(mask, f, k)),
    ensures
        steps.contains(f),
    decreases k,
{
    if k > 0 {
        crate::paths::a_boundary_goes_on(mask, f);
        lemma_contains_earlier(mask, steps, mask.after(f), (k - 1) as nat);
        lemma_backward(mask, steps, f);
    }
}

/// The masks of which every walk closes.
spec fn sound(mask: Mask) -> bool {
    &&& 0 < mask.w <= usize::MAX
    &&& 0 <= mask.h <= usize::MAX
    &&& forall|p: int| 0 <= p < mask.w * mask.h && #[trigger] mask.starts(p) ==> closes(mask, p)
}

proof fn lemma_covered(mask: Mask, f: Edge) -> (p: int)
    requires
        sound(mask),
        0 <= f.dir < 4,
        mask.boundary(f),
    ensures
        0 <= p < mask.w * mask.h,
        mask.starts(p),
        mask.walked(p, f),
{
    let k = lemma_turns_right(mask, f);
    let e = later(mask, f, k);
    let q = e.y * mask.w + e.x;
    crate::grid::lemma_pixel_index(e.x, e.y, mask.w, mask.h);
    assert(top(mask, q) == e);
    let p = if mask.starts(q) {
        lemma_round(mask, q);
        assert(round(mask, q)[0] == e);
        assert(mask.walked(q, e));
        q
    } else {
        let p = choose|p: int|
            #![trigger mask.walked(p, e)]
            0 <= p < q && mask.starts(p) && mask.walked(p, e);
        p
    };
    assert(mask.starts(p) && mask.walked(p, e));
    lemma_round(mask, p);
    assert(closes(mask, p));
    lemma_contains_earlier(mask, round(mask, p), f, k);
    p
}

proof fn lemma_goes_on(mask: Mask, steps: Seq<Edge>, other: Seq<Edge>, i: int, j: int)
    requires
        well_walked(mask, steps),
        mask.after(steps.last()) == steps[0],
        well_walked(mask, other),
        0 <= i <= j < other.len(),
        steps.contains(other[i]),
    ensures
        steps.contains(other[j]),
    decreases j - i,
{
    if i < j {
        lemma_forward(mask, steps, other[i]);
        assert(other[i + 1] == mask.after(other[i]));
        lemma_goes_on(mask, steps, other, i + 1, j);
    }
}

proof fn lemma_one_walk(mask: Mask, p: int, q: int, f: Edge)
    requires
        sound(mask),
        0 <= p < q < mask.w * mask.h,
        mask.starts(p),
        mask.starts(q),
        mask.walked(p, f),
    ensures
        !mask.walked(q, f),
{
    lemma_round(mask, p);
    lemma_round(mask, q);
    assert(closes(mask, p) && closes(mask, q));
    let (a, b) = (round(mask, p), round(mask, q));
    if b.contains(f) {
        let i = b.index_of(f);
        lemma_goes_on(mask, a, b, i, b.len() - 1);
        lemma_forward(mask, a, b.last());
        assert(a.contains(top(mask, q)));
        assert(mask.walked(p, top(mask, q)));
    }
}

/// On how many of the walks that start on the first `n` pixels a step lies.
spec fn times(mask: Mask, f: Edge, n: nat) -> int
    decreases n,
{
    if n == 0 {
        0
    } else {
        times(mask, f, (n - 1) as nat) + one_if(mask.starts(n - 1) && mask.walked(n - 1, f))
    }
}

proof fn lemma_times_at_most(mask: Mask, f: Edge, p: int, n: nat)
    requires
        sound(mask),
        0 <= p < mask.w * mask.h,
        n <= mask.w * mask.h,
        mask.starts(p),
        mask.walked(p, f),
    ensures
        times(mask, f, n) == one_if(p < n),
    decreases n,
{
    if n > 0 {
        lemma_times_at_most(mask, f, p, (n - 1) as nat);
        let q = n - 1;
        if q != p && mask.starts(q) {
            if p < q {
                lemma_one_walk(mask, p, q, f);
            } else if mask.walked(q, f) {
                lemma_one_walk(mask, q, p, f);
            }
        }
    }
}

proof fn lemma_never(mask: Mask, f: Edge, n: nat)
    requires
        !mask.boundary(f) || !(0 <= f.dir < 4),
    ensures
        times(mask, f, n) == 0,
    decreases n,
{
    if n > 0 {
        lemma_never(mask, f, (n - 1) as nat);
        if mask.starts(n - 1) && mask.walked(n - 1, f) {
            lemma_round(mask, n - 1);
            let i = round(mask, n - 1).index_of(f);
            assert(mask.boundary(round(mask, n - 1)[i]));
        }
    }
}

/// Every step along the boundary is on exactly one of the walks.
proof fn lemma_once(mask: Mask, f: Edge)
    requires
        sound(mask),
        0 <= f.dir < 4,
    ensures
        times(mask, f, (mask.w * mask.h) as nat) == one_if(mask.boundary(f)),
{
    assert(0 <= mask.w * mask.h) by (nonlinear_arith)
        requires
            0 < mask.w,
            0 <= mask.h,
    ;
    let n = (mask.w * mask.h) as nat;
    if mask.boundary(f) {
        let p = lemma_covered(mask, f);
        lemma_times_at_most(mask, f, p, n);
    } else {
        lemma_never(mask, f, n);
    }
}

// ── crossings of steps ──

/// How a step crosses the ray of a pixel.
spec fn weight(e: Edge, px: int, py: int) -> int {
    if e.dir == 0 && e.x == px && e.y <= py {
        1
    } else if e.dir == 2 && e.x == px + 1 && e.y <= py {
        -1
    } else {
        0
    }
}

/// How a step crosses a column along row `y`.
spec fn row_weight(e: Edge, px: int, y: int) -> int {
    if e.y == y {
        weight(e, px, y)
    } else {
        0
    }
}

spec fn tally(steps: Seq<Edge>, px: int, py: int) -> int
    decreases steps.len(),
{
    if steps.len() == 0 {
        0
    } else {
        tally(steps.drop_last(), px, py) + weight(steps.last(), px, py)
    }
}

spec fn row_tally(steps: Seq<Edge>, px: int, y: int) -> int
    decreases steps.len(),
{
    if steps.len() == 0 {
        0
    } else {
        row_tally(steps.drop_last(), px, y) + row_weight(steps.last(), px, y)
    }
}

proof fn lemma_rows(steps: Seq<Edge>, px: int, py: int)
    ensures
        tally(steps, px, py) == tally(steps, px, py - 1) + row_tally(steps, px, py),
    decreases steps.len(),
{
    if steps.len() > 0 {
        lemma_rows(steps.drop_last(), px, py);
    }
}

/// The step to the right along the top of pixel `(px, y)`.
spec fn rightward(px: int, y: int) -> Edge {
    Edge { x: px, y, dir: 0 }
}

/// The step to the left along the top of pixel `(px, y)`.
spec fn leftward(px: int, y: int) -> Edge {
    Edge { x: px + 1, y, dir: 2 }
}

proof fn lemma_row(steps: Seq<Edge>, px: int, y: int)
    requires
        steps.no_duplicates(),
    ensures
        row_tally(steps, px, y) == one_if(steps.contains(rightward(px, y))) - one_if(
            steps.contains(leftward(px, y)),
        ),
    decreases steps.len(),
{
    if steps.len() > 0 {
        let rest = steps.drop_last();
        let e = steps.last();
        lemma_row(rest, px, y);
        assert forall|f: Edge| #[trigger] steps.contains(f) == (rest.contains(f) || f == e) by {
            if rest.contains(f) {
                let i = rest.index_of(f);
                assert(steps[i] == f);
            }
            if steps.contains(f) && f != e {
                let i = steps.index_of(f);
                assert(rest[i] == f);
            }
            if f == e {
                assert(steps[steps.len() - 1] == f);
            }
        }
        assert(!rest.contains(e)) by {
            if rest.contains(e) {
                let i = rest.index_of(e);
                assert(steps[i] == steps[steps.len() - 1]);
            }
        }
        assert(steps.contains(rightward(px, y)) == (rest.contains(rightward(px, y)) || rightward(
            px,
            y,
        ) == e));
        assert(steps.contains(leftward(px, y)) == (rest.contains(leftward(px, y)) || leftward(px, y)
            == e));
    }
}

/// The crossings of all walks that start on the first `n` pixels.
spec fn total(mask: Mask, px: int, py: int, n: nat) -> int
    decreases n,
{
    if n == 0 {
        0
    } else {
        total(mask, px, py, (n - 1) as nat) + (if mask.starts(n - 1) {
            tally(round(mask, n - 1), px, py)
        } else {
            0
        })
    }
}

proof fn lemma_total_rows(mask: Mask, px: int, py: int, n: nat)
    ensures
        total(mask, px, py, n) == total(mask, px, py - 1, n) + times(mask, rightward(px, py), n)
            - times(mask, leftward(px, py), n),
    decreases n,
{
    if n > 0 {
        lemma_total_rows(mask, px, py, (n - 1) as nat);
        if mask.starts(n - 1) {
            let steps = round(mask, n - 1);
            lemma_round(mask, n - 1);
            lemma_no_step_twice(mask, steps);
            lemma_rows(steps, px, py);
            lemma_row(steps, px, py);
        }
    }
}

proof fn lemma_nothing_above(steps: Seq<Edge>, px: int, py: int)
    requires
        py < 0,
        forall|i: int| 0 <= i < steps.len() ==> (#[trigger] steps[i]).y >= 0,
    ensures
        tally(steps, px, py) == 0,
    decreases steps.len(),
{
    if steps.len() > 0 {
        let rest = steps.drop_last();
        assert forall|i: int| 0 <= i < rest.len() implies (#[trigger] rest[i]).y >= 0 by {
            assert(rest[i] == steps[i]);
        }
        lemma_nothing_above(rest, px, py);
        assert(steps[steps.len() - 1].y >= 0);
    }
}

proof fn lemma_total_above(mask: Mask, px: int, py: int, n: nat)
    requires
        py < 0,
    ensures
        total(mask, px, py, n) == 0,
    decreases n,
{
    if n > 0 {
        lemma_total_above(mask, px, py, (n - 1) as nat);
        if mask.starts(n - 1) {
            let steps = round(mask, n - 1);
            lemma_round(mask, n - 1);
            assert forall|i: int| 0 <= i < steps.len() implies (#[trigger] steps[i]).y >= 0 by {
                assert(mask.boundary(steps[i]));
            }
            lemma_nothing_above(steps, px, py);
        }
    }
}

/// Straight up from a pixel, the boundary is crossed into the selection once
/// more than out of it where the pixel is selected, and as often where it is
/// not.
proof fn lemma_total(mask: Mask, px: int, py: int)
    requires
        sound(mask),
        -1 <= py,
    ensures
        total(mask, px, py, (mask.w * mask.h) as nat) == one_if(mask.has(px, py)),
    decreases py + 1,
{
    let n = (mask.w * mask.h) as nat;
    if py < 0 {
        lemma_total_above(mask, px, py, n);
    } else {
        lemma_total(mask, px, py - 1);
        lemma_total_rows(mask, px, py, n);
        lemma_once(mask, rightward(px, py));
        lemma_once(mask, leftward(px, py));
    }
}

// ── crossings of contours ──

/// The place after place `i` of a closed walk.
spec fn next(i: int, len: int) -> int {
    if i + 1 < len {
        i + 1
    } else {
        0
    }
}

proof fn lemma_round_trip(i: int, len: int)
    requires
        0 <= i < len,
    ensures
        (i + 1) % len == next(i, len),
{
    if i + 1 < len {
        vstd::arithmetic::div_mod::lemma_small_mod((i + 1) as nat, len as nat);
    } else {
        vstd::arithmetic::div_mod::lemma_mod_self_0(len);
    }
}

/// Whether a walk goes straight from point `i` to the next, and does not turn
/// back there.
spec fn strides(points: Seq<(usize, usize)>, dirs: Seq<int>, i: int) -> bool {
    let j = next(i, points.len() as int);
    &&& 0 <= dirs[i] < 4
    &&& straight(points[i], points[j], dirs[i])
    &&& dirs[j] != (dirs[i] + 2) % 4
}

/// Whether a closed walk goes straight from point to point without ever turning
/// back.
spec fn rambles(points: Seq<(usize, usize)>, dirs: Seq<int>, w: int, h: int) -> bool {
    &&& points.len() > 0
    &&& forall|i: int| 0 <= i < points.len() ==> on_image(#[trigger] points[i], w, h)
    &&& dirs.len() == points.len()
    &&& forall|i: int| 0 <= i < points.len() ==> #[trigger] strides(points, dirs, i)
}

/// Whether a number on sides adds up along straight runs.
spec fn adds_up(f: spec_fn((usize, usize), (usize, usize)) -> int) -> bool {
    forall|a: (usize, usize), b: (usize, usize), c: (usize, usize), dir: int|
        0 <= dir < 4 && #[trigger] straight(a, b, dir) && #[trigger] straight(b, c, dir) ==> f(a, c)
            == f(a, b) + f(b, c)
}

/// The sum of a number over the first `n` sides of a closed polygon.
spec fn around(
    points: Seq<(usize, usize)>,
    f: spec_fn((usize, usize), (usize, usize)) -> int,
    n: nat,
) -> int
    decreases n,
{
    if n == 0 {
        0
    } else {
        around(points, f, (n - 1) as nat) + f(points[n - 1], points[n as int % points.len() as int])
    }
}

/// A point between two straight runs is kept exactly where they turn.
proof fn lemma_turn<D: Fn((usize, usize), (usize, usize), (usize, usize)) -> Scalar>(
    distance: D,
    tolerance: Scalar,
    w: int,
    h: int,
    prev: (usize, usize),
    cur: (usize, usize),
    next: (usize, usize),
    dir: int,
    on: int,
)
    requires
        tells_turns(distance, w, h),
        !crate::scalar::zero().below(tolerance),
        on_image(prev, w, h),
        on_image(cur, w, h),
        on_image(next, w, h),
        0 <= dir < 4,
        0 <= on < 4,
        on != (dir + 2) % 4,
        straight(prev, cur, dir),
        straight(cur, next, on),
    ensures
        crate::paths::apart(distance, tolerance, cur, prev, next) <==> on != dir,
        on == dir ==> straight(prev, next, dir),
{
}

/// The sum of a number along an open chain of points.
spec fn chain(
    points: Seq<(usize, usize)>,
    f: spec_fn((usize, usize), (usize, usize)) -> int,
) -> int
    decreases points.len(),
{
    if points.len() < 2 {
        0
    } else {
        chain(points.drop_last(), f) + f(points[points.len() - 2], points[points.len() - 1])
    }
}

proof fn lemma_chain(
    points: Seq<(usize, usize)>,
    f: spec_fn((usize, usize), (usize, usize)) -> int,
    n: nat,
)
    requires
        n < points.len(),
    ensures
        around(points, f, n) == chain(points.take(n + 1int), f),
    decreases n,
{
    if n > 0 {
        lemma_chain(points, f, (n - 1) as nat);
        assert(points.take(n + 1int).drop_last() =~= points.take(n as int));
        lemma_round_trip(n - 1, points.len() as int);
    }
}

proof fn lemma_closed(
    points: Seq<(usize, usize)>,
    f: spec_fn((usize, usize), (usize, usize)) -> int,
)
    requires
        points.len() > 0,
    ensures
        around(points, f, points.len()) == chain(points, f) + f(points.last(), points[0]),
{
    let n = points.len();
    lemma_chain(points, f, (n - 1) as nat);
    assert(points.take(n as int) =~= points);
    lemma_round_trip(n - 1, n as int);
}

/// The point after the first `n`, round the walk.
spec fn at(points: Seq<(usize, usize)>, n: int) -> (usize, usize) {
    points[n % points.len() as int]
}

/// Whether the walk has run straight on through its first `n` points.
spec fn no_turn_before(dirs: Seq<int>, n: nat) -> bool {
    forall|i: int| 0 <= i < n ==> #[trigger] dirs[i] == dirs[dirs.len() - 1]
}

/// What has been kept of the first `n` points, where something has: it starts
/// with the first turn, runs straight to the next point, and sums up to what the
/// points do from that turn on.
spec fn keeps_up<D: Fn((usize, usize), (usize, usize), (usize, usize)) -> Scalar>(
    distance: D,
    tolerance: Scalar,
    w: int,
    h: int,
    points: Seq<(usize, usize)>,
    dirs: Seq<int>,
    f: spec_fn((usize, usize), (usize, usize)) -> int,
    n: nat,
    first: nat,
) -> bool {
    let kept = crate::paths::kept(points, distance, tolerance, n);
    &&& first < n
    &&& no_turn_before(dirs, first)
    &&& kept.len() > 0
    &&& kept[0] == points[first as int]
    &&& on_image(kept.last(), w, h)
    &&& straight(kept.last(), at(points, n as int), dirs[n - 1])
    &&& chain(kept, f) + f(kept.last(), at(points, n as int)) == around(
        points,
        f,
        n,
    ) - around(points, f, first)
}

proof fn lemma_keeps_up<D: Fn((usize, usize), (usize, usize), (usize, usize)) -> Scalar>(
    distance: D,
    tolerance: Scalar,
    w: int,
    h: int,
    points: Seq<(usize, usize)>,
    dirs: Seq<int>,
    f: spec_fn((usize, usize), (usize, usize)) -> int,
    n: nat,
) -> (first: nat)
    requires
        tells_turns(distance, w, h),
        !crate::scalar::zero().below(tolerance),
        adds_up(f),
        rambles(points, dirs, w, h),
        n <= points.len(),
    ensures
        crate::paths::kept(points, distance, tolerance, n).len() == 0 ==> no_turn_before(dirs, n),
        crate::paths::kept(points, distance, tolerance, n).len() > 0 ==> keeps_up(distance, tolerance, w, h, points, dirs, f, n, first),
    decreases n,
{
    if n == 0 {
        0
    } else {
        let len = points.len() as int;
        let before = crate::paths::kept(points, distance, tolerance, (n - 1) as nat);
        let now = crate::paths::kept(points, distance, tolerance, n);
        let first = lemma_keeps_up(distance, tolerance, w, h, points, dirs, f, (n - 1) as nat);
        let cur = points[n - 1];
        let then = points[n as int % len];
        assert(strides(points, dirs, n - 1));
        lemma_round_trip(n - 1, len);
        if before.len() == 0 {
            let b = (n - 2 + len) % len;
            if n == 1 {
                lemma_round_trip(len - 2, len);
            } else {
                vstd::arithmetic::div_mod::lemma_mod_add_multiples_vanish(n - 2, len);
                vstd::arithmetic::div_mod::lemma_small_mod((n - 2) as nat, len as nat);
            }
            assert(next(b, len) == n - 1);
            assert(strides(points, dirs, b));
            assert(dirs[b] == dirs[len - 1]);
            lemma_turn(distance, tolerance, w, h, points[b], cur, then, dirs[b], dirs[n - 1]);
            if now.len() > 0 {
                assert(now =~= seq![cur]);
                assert(chain(now, f) == 0);
                assert(keeps_up(distance, tolerance, w, h, points, dirs, f, n, (n - 1) as nat));
                (n - 1) as nat
            } else {
                assert(no_turn_before(dirs, n)) by {
                    assert forall|i: int| 0 <= i < n implies #[trigger] dirs[i]
                        == dirs[dirs.len() - 1] by {
                        if i < n - 1 {
                            assert(no_turn_before(dirs, (n - 1) as nat));
                        }
                    }
                }
                0
            }
        } else {
            lemma_step_kept(distance, tolerance, w, h, points, dirs, f, n, first);
            first
        }
    }
}

proof fn lemma_step_kept<D: Fn((usize, usize), (usize, usize), (usize, usize)) -> Scalar>(
    distance: D,
    tolerance: Scalar,
    w: int,
    h: int,
    points: Seq<(usize, usize)>,
    dirs: Seq<int>,
    f: spec_fn((usize, usize), (usize, usize)) -> int,
    n: nat,
    first: nat,
)
    requires
        tells_turns(distance, w, h),
        !crate::scalar::zero().below(tolerance),
        adds_up(f),
        rambles(points, dirs, w, h),
        1 < n <= points.len(),
        keeps_up(distance, tolerance, w, h, points, dirs, f, (n - 1) as nat, first),
    ensures
        keeps_up(distance, tolerance, w, h, points, dirs, f, n, first),
{
    let len = points.len() as int;
    let before = crate::paths::kept(points, distance, tolerance, (n - 1) as nat);
    let now = crate::paths::kept(points, distance, tolerance, n);
    let cur = points[n - 1];
    let then = points[n as int % len];
    lemma_round_trip(n - 2, len);
    lemma_round_trip(n - 1, len);
    assert(strides(points, dirs, n - 2));
    assert(strides(points, dirs, n - 1));
    lemma_turn(distance, tolerance, w, h, before.last(), cur, then, dirs[n - 2], dirs[n - 1]);
    if dirs[n - 1] == dirs[n - 2] {
        assert(now == before);
        assert(f(before.last(), then) == f(before.last(), cur) + f(cur, then));
    } else {
        assert(now == before.push(cur));
        assert(now.drop_last() =~= before);
        assert(now[now.len() - 2] == before.last());
        assert(now[0] == before[0]);
    }
}

/// The run from the last kept point through the first points is straight.
proof fn lemma_last_run<D: Fn((usize, usize), (usize, usize), (usize, usize)) -> Scalar>(
    distance: D,
    tolerance: Scalar,
    w: int,
    h: int,
    points: Seq<(usize, usize)>,
    dirs: Seq<int>,
    last: (usize, usize),
    f: spec_fn((usize, usize), (usize, usize)) -> int,
    n: nat,
)
    requires
        tells_turns(distance, w, h),
        !crate::scalar::zero().below(tolerance),
        adds_up(f),
        rambles(points, dirs, w, h),
        n < points.len(),
        no_turn_before(dirs, n),
        on_image(last, w, h),
        straight(last, points[0], dirs[dirs.len() - 1]),
    ensures
        straight(last, points[n as int], dirs[dirs.len() - 1]),
        f(last, points[n as int]) == f(last, points[0]) + around(
            points,
            f,
            n,
        ),
    decreases n,
{
    if n > 0 {
        let len = points.len() as int;
        lemma_last_run(distance, tolerance, w, h, points, dirs, last, f, (n - 1) as nat);
        lemma_round_trip(n - 1, len);
        assert(strides(points, dirs, n - 1));
        assert(dirs[n - 1] == dirs[len - 1]);
        lemma_turn(distance, tolerance, w, h, last, points[n - 1], points[n as int], dirs[len - 1], dirs[n - 1]);
        assert(f(last, points[n as int]) == f(last, points[n - 1]) + f(points[n - 1], points[n as int]));
    }
}

/// Dropping the points of straight runs changes no sum.
proof fn lemma_simplified<D: Fn((usize, usize), (usize, usize), (usize, usize)) -> Scalar>(
    distance: D,
    tolerance: Scalar,
    w: int,
    h: int,
    points: Seq<(usize, usize)>,
    dirs: Seq<int>,
    f: spec_fn((usize, usize), (usize, usize)) -> int,
)
    requires
        tells_turns(distance, w, h),
        !crate::scalar::zero().below(tolerance),
        adds_up(f),
        rambles(points, dirs, w, h),
    ensures
        ({
            let rest = crate::paths::simplified(points, distance, tolerance);
            around(rest, f, rest.len()) == around(points, f, points.len())
        }),
{
    let n = points.len();
    let rest = crate::paths::kept(points, distance, tolerance, n);
    if n >= 3 && rest.len() >= 3 {
        let first = lemma_keeps_up(distance, tolerance, w, h, points, dirs, f, n);
        lemma_round_trip(n - 1, n as int);
        assert(at(points, n as int) == points[0]);
        lemma_last_run(distance, tolerance, w, h, points, dirs, rest.last(), f, first);
        lemma_closed(rest, f);
    }
}

/// A step leads straight to the corner of the next one and crosses as the side
/// between the two.
proof fn lemma_step(mask: Mask, a: Edge, px: int, py: int)
    requires
        0 < mask.w <= usize::MAX,
        0 <= mask.h <= usize::MAX,
        0 <= a.dir < 4,
        mask.boundary(a),
    ensures
        straight(a.corner(), mask.after(a).corner(), a.dir),
        mask.after(a).dir != (a.dir + 2) % 4,
        side(a.corner(), mask.after(a).corner(), px, py) == weight(a, px, py),
{
    let b = mask.after(a);
    crate::paths::a_boundary_goes_on(mask, a);
    lemma_never_back(mask, a);
    assert(0 <= a.x <= mask.w && 0 <= a.y <= mask.h);
    assert(0 <= a.to_x() <= mask.w && 0 <= a.to_y() <= mask.h);
    assert(a.corner() == (a.x as usize, a.y as usize));
    assert(b.corner() == (a.to_x() as usize, a.to_y() as usize));
}

/// The corners of a walk stride as its steps do, and cross as they do.
proof fn lemma_stride(mask: Mask, steps: Seq<Edge>, i: int, px: int, py: int)
    requires
        0 < mask.w <= usize::MAX,
        0 <= mask.h <= usize::MAX,
        well_walked(mask, steps),
        mask.after(steps.last()) == steps[0],
        0 <= i < steps.len(),
    ensures
        ({
            let points = steps.map_values(|e: Edge| e.corner());
            let dirs = steps.map_values(|e: Edge| e.dir);
            &&& strides(points, dirs, i)
            &&& steps[next(i, steps.len() as int)] == mask.after(steps[i])
            &&& side(points[i], points[next(i, steps.len() as int)], px, py) == weight(
                steps[i],
                px,
                py,
            )
        }),
{
    let j = next(i, steps.len() as int);
    assert(0 <= steps[i].dir < 4 && mask.boundary(steps[i]));
    assert(steps[j] == mask.after(steps[i])) by {
        if i + 1 < steps.len() {
            assert(steps[j] == mask.after(steps[j - 1]));
        }
    }
    lemma_step(mask, steps[i], px, py);
}

proof fn lemma_corners(mask: Mask, steps: Seq<Edge>, px: int, py: int, n: nat)
    requires
        0 < mask.w <= usize::MAX,
        0 <= mask.h <= usize::MAX,
        well_walked(mask, steps),
        mask.after(steps.last()) == steps[0],
        n <= steps.len(),
    ensures
        crossings(steps.map_values(|e: Edge| e.corner()), px, py, n) == tally(
            steps.take(n as int),
            px,
            py,
        ),
    decreases n,
{
    if n > 0 {
        lemma_corners(mask, steps, px, py, (n - 1) as nat);
        assert(steps.take(n as int).drop_last() =~= steps.take(n - 1));
        lemma_stride(mask, steps, n - 1, px, py);
        lemma_round_trip(n - 1, steps.len() as int);
    }
}

/// How a side crosses the ray of a pixel, as a number on sides.
spec fn crossing(px: int, py: int) -> spec_fn((usize, usize), (usize, usize)) -> int {
    |p: (usize, usize), q: (usize, usize)| side(p, q, px, py)
}

proof fn lemma_crossings(points: Seq<(usize, usize)>, px: int, py: int, n: nat)
    ensures
        crossings(points, px, py, n) == around(points, crossing(px, py), n),
    decreases n,
{
    if n > 0 {
        lemma_crossings(points, px, py, (n - 1) as nat);
    }
}

/// A walk that closes strides from corner to corner.
proof fn lemma_rambles(mask: Mask, p: int)
    requires
        sound(mask),
        0 <= p < mask.w * mask.h,
        mask.starts(p),
    ensures
        mask.round(p % mask.w, p / mask.w).len() >= 3,
        rambles(
            mask.corners(p % mask.w, p / mask.w),
            mask.round(p % mask.w, p / mask.w).map_values(|e: Edge| e.dir),
            mask.w,
            mask.h,
        ),
{
    let steps = round(mask, p);
    let points = steps.map_values(|e: Edge| e.corner());
    let dirs = steps.map_values(|e: Edge| e.dir);
    lemma_round(mask, p);
    assert(closes(mask, p));
    assert forall|i: int| 0 <= i < points.len() implies #[trigger] strides(points, dirs, i) by {
        lemma_stride(mask, steps, i, 0, 0);
    }
    assert forall|i: int| 0 <= i < points.len() implies on_image(
        #[trigger] points[i],
        mask.w,
        mask.h,
    ) by {
        assert(mask.boundary(steps[i]));
        assert(points[i] == (steps[i].x as usize, steps[i].y as usize));
    }
    assert(steps.len() >= 3) by {
        lemma_stride(mask, steps, 0, 0, 0);
        if steps.len() == 2 {
            lemma_stride(mask, steps, 1, 0, 0);
        }
    }
}

proof fn lemma_polygon<D: Fn((usize, usize), (usize, usize), (usize, usize)) -> Scalar>(
    distance: D,
    tolerance: Scalar,
    mask: Mask,
    p: int,
    px: int,
    py: int,
)
    requires
        tells_turns(distance, mask.w, mask.h),
        !crate::scalar::zero().below(tolerance),
        sound(mask),
        0 <= p < mask.w * mask.h,
        mask.starts(p),
    ensures
        ({
            let (x, y) = (p % mask.w, p / mask.w);
            let points = mask.contour(x, y, distance, tolerance).points;
            crossings(points, px, py, points.len()) == tally(mask.round(x, y), px, py)
        }),
{
    let steps = round(mask, p);
    let points = mask.corners(p % mask.w, p / mask.w);
    let rest = crate::paths::simplified(points, distance, tolerance);
    lemma_round(mask, p);
    assert(closes(mask, p));
    lemma_rambles(mask, p);
    lemma_corners(mask, steps, px, py, steps.len());
    assert(steps.take(steps.len() as int) =~= steps);
    lemma_simplified(
        distance,
        tolerance,
        mask.w,
        mask.h,
        points,
        steps.map_values(|e: Edge| e.dir),
        crossing(px, py),
    );
    lemma_crossings(points, px, py, points.len());
    lemma_crossings(rest, px, py, rest.len());
}

proof fn lemma_winding<D: Fn((usize, usize), (usize, usize), (usize, usize)) -> Scalar>(
    distance: D,
    tolerance: Scalar,
    mask: Mask,
    px: int,
    py: int,
    n: nat,
)
    requires
        tells_turns(distance, mask.w, mask.h),
        !crate::scalar::zero().below(tolerance),
        sound(mask),
        n <= mask.w * mask.h,
    ensures
        winding(mask.contours(distance, tolerance, n), px, py) == total(mask, px, py, n),
    decreases n,
{
    if n > 0 {
        lemma_winding(distance, tolerance, mask, px, py, (n - 1) as nat);
        if mask.starts(n - 1) {
            let (x, y) = ((n - 1) % mask.w, (n - 1) / mask.w);
            let rest = mask.contours(distance, tolerance, (n - 1) as nat);
            lemma_rambles(mask, n - 1);
            lemma_polygon(distance, tolerance, mask, n - 1, px, py);
            assert(mask.contours(distance, tolerance, n) == rest.push(
                mask.contour(x, y, distance, tolerance),
            ));
            assert(mask.contours(distance, tolerance, n).drop_last() =~= rest);
        }
    }
}

/// Whether every walk of a selection closes.
pub open spec fn all_close(mask: Mask) -> bool {
    forall|p: int| 0 <= p < mask.w * mask.h && #[trigger] mask.starts(p) ==> closes(mask, p)
}

/// The contours enclose exactly the selected pixels: traced without tolerance,
/// they wind once round each selected pixel and not at all round any other. Left
/// out are selections of which a walk does not close: one longer than is walked,
/// or one that comes back early to a corner where two selected pixels touch.
pub proof fn contours_enclose_the_selection<D: Fn((usize, usize), (usize, usize), (usize, usize)) -> Scalar>(
    coverage: Seq<u8>,
    width: int,
    height: int,
    threshold: u8,
    distance: D,
    tolerance: Scalar,
    px: int,
    py: int,
)
    requires
        0 < width <= usize::MAX,
        0 <= height <= usize::MAX,
        coverage.len() >= width * height,
        all_close(Mask { cells: coverage, w: width, h: height, threshold }),
        tells_turns(distance, width, height),
        !crate::scalar::zero().below(tolerance),
    ensures
        ({
            let mask = Mask { cells: coverage, w: width, h: height, threshold };
            let list = crate::paths::traced(
                coverage,
                width,
                height,
                threshold,
                distance,
                tolerance,
            );
            winding(list, px, py) == (if mask.has(px, py) {
                1int
            } else {
                0
            })
        }),
{
    let mask = Mask { cells: coverage, w: width, h: height, threshold };
    assert(0 <= width * height) by (nonlinear_arith)
        requires
            0 < width,
            0 <= height,
    ;
    let n = (width * height) as nat;
    lemma_winding(distance, tolerance, mask, px, py, n);
    if py < -1 {
        lemma_total_above(mask, px, py, n);
    } else {
        lemma_total(mask, px, py);
    }
}

// ── walks that close ──

/// Whether no two selected pixels touch at a corner alone.
pub open spec fn no_corner_touch(mask: Mask) -> bool {
    forall|x: int, y: int|
        #![trigger mask.has(x, y)]
        !(mask.has(x, y) && mask.has(x - 1, y - 1) && !mask.has(x - 1, y) && !mask.has(x, y - 1))
            && !(!mask.has(x, y) && !mask.has(x - 1, y - 1) && mask.has(x - 1, y) && mask.has(
            x,
            y - 1,
        ))
}

spec fn numbered(w: int, e: Edge) -> int {
    (e.y * (w + 1) + e.x) * 4 + e.dir
}

proof fn lemma_numbered(mask: Mask, e: Edge)
    requires
        0 <= e.x <= mask.w,
        0 <= e.y <= mask.h,
        0 <= e.dir < 4,
    ensures
        0 <= numbered(mask.w, e) < (mask.w + 1) * (mask.h + 1) * 4,
        numbered(mask.w, e) / 4 % (mask.w + 1) == e.x,
        numbered(mask.w, e) / 4 / (mask.w + 1) == e.y,
        numbered(mask.w, e) % 4 == e.dir,
{
    crate::grid::lemma_pixel_index(e.x, e.y, mask.w + 1, mask.h + 1);
}

/// A walk is no longer than there are steps on the grid.
proof fn lemma_length(mask: Mask, steps: Seq<Edge>)
    requires
        0 < mask.w,
        0 <= mask.h,
        well_walked(mask, steps),
    ensures
        steps.len() <= (mask.w + 1) * (mask.h + 1) * 4,
{
    let most = (mask.w + 1) * (mask.h + 1) * 4;
    let numbers = steps.map_values(|e: Edge| numbered(mask.w, e));
    lemma_no_step_twice(mask, steps);
    assert forall|i: int| 0 <= i < numbers.len() implies 0 <= #[trigger] numbers[i] < most by {
        assert(mask.boundary(steps[i]));
        lemma_numbered(mask, steps[i]);
    }
    assert(numbers.no_duplicates()) by {
        assert forall|i: int, j: int|
            0 <= i < numbers.len() && 0 <= j < numbers.len() && i != j implies numbers[i]
            != numbers[j] by {
            assert(mask.boundary(steps[i]) && mask.boundary(steps[j]));
            lemma_numbered(mask, steps[i]);
            lemma_numbered(mask, steps[j]);
            if numbers[i] == numbers[j] {
                assert(steps[i] =~= steps[j]);
            }
        }
    }
    assert(0 <= most) by (nonlinear_arith)
        requires
            most == (mask.w + 1) * (mask.h + 1) * 4,
            0 < mask.w,
            0 <= mask.h,
    ;
    numbers.unique_seq_to_set();
    vstd::set_lib::lemma_int_range(0, most);
    assert(numbers.to_set().subset_of(vstd::set_lib::set_int_range(0, most)));
    vstd::set_lib::lemma_len_subset(numbers.to_set(), vstd::set_lib::set_int_range(0, most));
}

/// A walk that is not cut off closes where no two selected pixels touch at a
/// corner alone.
pub proof fn a_walk_closes(mask: Mask, p: int)
    requires
        mask.starts(p),
        mask.round(p % mask.w, p / mask.w).len() < crate::paths::LONGEST,
        no_corner_touch(mask),
    ensures
        closes(mask, p),
{
    let (x, y) = (p % mask.w, p / mask.w);
    let steps = round(mask, p);
    lemma_round(mask, p);
    crate::paths::a_walk_follows_the_boundary(
        mask,
        x,
        y,
        top(mask, p),
        crate::paths::LONGEST as nat,
    );
    let last = steps[steps.len() - 1];
    assert(mask.boundary(last));
    crate::paths::a_boundary_goes_on(mask, last);
    let then = mask.after(last);
    assert(mask.boundary(top(mask, p)));
    assert(mask.has(x, y));
    assert(then.dir == 0);
    assert(then =~= steps[0]);
}

/// Every walk closes on an image with fewer steps than are walked, where no two
/// selected pixels touch at a corner alone.
pub proof fn walks_close(mask: Mask)
    requires
        0 < mask.w,
        0 <= mask.h,
        (mask.w + 1) * (mask.h + 1) * 4 < crate::paths::LONGEST,
        no_corner_touch(mask),
    ensures
        all_close(mask),
{
    assert forall|p: int| 0 <= p < mask.w * mask.h && #[trigger] mask.starts(p) implies closes(
        mask,
        p,
    ) by {
        lemma_round(mask, p);
        lemma_length(mask, round(mask, p));
        a_walk_closes(mask, p);
    }
}

// ── areas ──

/// The selected pixels among the first `n` of row `y`.
pub open spec fn selected_in_row(mask: Mask, y: int, n: nat) -> nat
    decreases n,
{
    if n == 0 {
        0
    } else {
        selected_in_row(mask, y, (n - 1) as nat) + (if mask.has(n - 1, y) {
            1nat
        } else {
            0
        })
    }
}

/// The selected pixels of the first `rows` rows.
pub open spec fn selected(mask: Mask, rows: nat) -> nat
    decreases rows,
{
    if rows == 0 {
        0
    } else {
        selected(mask, (rows - 1) as nat) + selected_in_row(mask, rows - 1, mask.w as nat)
    }
}

/// Twice the signed areas of contours, added up: a hole takes away what it cuts
/// out.
pub open spec fn areas(list: Seq<Outline>) -> int
    decreases list.len(),
{
    if list.len() == 0 {
        0
    } else {
        let points = list.last().points;
        areas(list.drop_last()) + crate::paths::area(points, points.len())
    }
}

/// A number on pixels added up over the first `n` of row `y`.
spec fn row_sum(f: spec_fn(int, int) -> int, y: int, n: nat) -> int
    decreases n,
{
    if n == 0 {
        0
    } else {
        row_sum(f, y, (n - 1) as nat) + f(n - 1, y)
    }
}

/// A number on pixels added up over the first `rows` rows.
spec fn grid_sum(f: spec_fn(int, int) -> int, w: nat, rows: nat) -> int
    decreases rows,
{
    if rows == 0 {
        0
    } else {
        grid_sum(f, w, (rows - 1) as nat) + row_sum(f, rows - 1, w)
    }
}

proof fn lemma_row_sum_adds(
    f: spec_fn(int, int) -> int,
    g: spec_fn(int, int) -> int,
    h: spec_fn(int, int) -> int,
    y: int,
    n: nat,
)
    requires
        forall|px: int, py: int| #[trigger] h(px, py) == f(px, py) + g(px, py),
    ensures
        row_sum(h, y, n) == row_sum(f, y, n) + row_sum(g, y, n),
    decreases n,
{
    if n > 0 {
        lemma_row_sum_adds(f, g, h, y, (n - 1) as nat);
        assert(h(n - 1, y) == f(n - 1, y) + g(n - 1, y));
    }
}

proof fn lemma_grid_sum_adds(
    f: spec_fn(int, int) -> int,
    g: spec_fn(int, int) -> int,
    h: spec_fn(int, int) -> int,
    w: nat,
    rows: nat,
)
    requires
        forall|px: int, py: int| #[trigger] h(px, py) == f(px, py) + g(px, py),
    ensures
        grid_sum(h, w, rows) == grid_sum(f, w, rows) + grid_sum(g, w, rows),
    decreases rows,
{
    if rows > 0 {
        lemma_grid_sum_adds(f, g, h, w, (rows - 1) as nat);
        lemma_row_sum_adds(f, g, h, rows - 1, w);
    }
}

proof fn lemma_row_sum_zero(f: spec_fn(int, int) -> int, y: int, n: nat)
    requires
        forall|px: int, py: int| #[trigger] f(px, py) == 0,
    ensures
        row_sum(f, y, n) == 0,
    decreases n,
{
    if n > 0 {
        lemma_row_sum_zero(f, y, (n - 1) as nat);
        assert(f(n - 1, y) == 0);
    }
}

proof fn lemma_grid_sum_zero(f: spec_fn(int, int) -> int, w: nat, rows: nat)
    requires
        forall|px: int, py: int| #[trigger] f(px, py) == 0,
    ensures
        grid_sum(f, w, rows) == 0,
    decreases rows,
{
    if rows > 0 {
        lemma_grid_sum_zero(f, w, (rows - 1) as nat);
        lemma_row_sum_zero(f, rows - 1, w);
    }
}

spec fn weights(e: Edge) -> spec_fn(int, int) -> int {
    |px: int, py: int| weight(e, px, py)
}

spec fn tallies(steps: Seq<Edge>) -> spec_fn(int, int) -> int {
    |px: int, py: int| tally(steps, px, py)
}

/// The column of pixels that a step along a row lies over.
spec fn column(e: Edge) -> int {
    if e.dir == 0 {
        e.x
    } else {
        e.x - 1
    }
}

/// How a step crosses the rays from below it.
spec fn way(e: Edge) -> int {
    if e.dir == 0 {
        1
    } else if e.dir == 2 {
        -1
    } else {
        0
    }
}

proof fn lemma_row_of_weights(e: Edge, y: int, n: nat)
    ensures
        row_sum(weights(e), y, n) == (if e.y <= y && 0 <= column(e) < n {
            way(e)
        } else {
            0
        }),
    decreases n,
{
    if n > 0 {
        lemma_row_of_weights(e, y, (n - 1) as nat);
    }
}

/// A step along a row crosses the ray of each pixel below it.
proof fn lemma_grid_of_weights(e: Edge, w: nat, rows: nat)
    requires
        way(e) != 0 ==> 0 <= column(e) < w,
        0 <= e.y,
    ensures
        grid_sum(weights(e), w, rows) == (if e.y <= rows {
            way(e) * (rows - e.y)
        } else {
            0
        }),
    decreases rows,
{
    if rows > 0 {
        lemma_grid_of_weights(e, w, (rows - 1) as nat);
        lemma_row_of_weights(e, rows - 1, w);
        assert(way(e) * (rows - e.y) == way(e) * (rows - 1 - e.y) + way(e)) by (nonlinear_arith);
        if e.y == rows {
            assert(way(e) * (rows - e.y) == 0) by (nonlinear_arith)
                requires
                    e.y == rows,
            ;
        }
    } else if e.y == 0 {
        assert(way(e) * (rows - e.y) == 0) by (nonlinear_arith)
            requires
                e.y == rows,
        ;
    }
}

/// Twice the signed area between a side and the origin, as a number on sides.
spec fn sweep() -> spec_fn((usize, usize), (usize, usize)) -> int {
    |p: (usize, usize), q: (usize, usize)| p.0 * q.1 - q.0 * p.1
}

proof fn lemma_sweep_adds_up()
    ensures
        adds_up(sweep()),
{
    assert forall|a: (usize, usize), b: (usize, usize), c: (usize, usize), dir: int|
        0 <= dir < 4 && #[trigger] straight(a, b, dir) && #[trigger] straight(b, c, dir) implies (
    sweep())(a, c) == (sweep())(a, b) + (sweep())(b, c) by {
        let (ax, ay, bx, by, cx, cy) = (
            a.0 as int,
            a.1 as int,
            b.0 as int,
            b.1 as int,
            c.0 as int,
            c.1 as int,
        );
        assert(ax * cy - cx * ay == (ax * by - bx * ay) + (bx * cy - cx * by)) by (nonlinear_arith)
            requires
                (ax == bx && bx == cx) || (ay == by && by == cy),
        ;
    }
}

proof fn lemma_area(points: Seq<(usize, usize)>, n: nat)
    ensures
        crate::paths::area(points, n) == around(points, sweep(), n),
    decreases n,
{
    if n > 0 {
        lemma_area(points, (n - 1) as nat);
    }
}

/// What a closed walk's area and its crossings differ by, step for step.
spec fn drift(h: int, x: int, y: int) -> int {
    x * y - 2 * h * x
}

proof fn lemma_sweep_of_step(h: int, e: Edge)
    requires
        0 <= e.dir < 4,
    ensures
        e.x * e.to_y() - e.to_x() * e.y == 2 * (way(e) * (h - e.y)) + drift(h, e.to_x(), e.to_y())
            - drift(h, e.x, e.y),
{
    let (x, y) = (e.x, e.y);
    assert(x * y - (x + 1) * y == 2 * (1 * (h - y)) + ((x + 1) * y - 2 * h * (x + 1)) - (x * y - 2
        * h * x)) by (nonlinear_arith);
    assert(x * y - (x - 1) * y == 2 * (-1 * (h - y)) + ((x - 1) * y - 2 * h * (x - 1)) - (x * y - 2
        * h * x)) by (nonlinear_arith);
    assert(x * (y + 1) - x * y == 2 * (0 * (h - y)) + (x * (y + 1) - 2 * h * x) - (x * y - 2 * h * x))
        by (nonlinear_arith);
    assert(x * (y - 1) - x * y == 2 * (0 * (h - y)) + (x * (y - 1) - 2 * h * x) - (x * y - 2 * h * x))
        by (nonlinear_arith);
}

/// The first `n` steps of a closed walk sweep twice what they cross, up to the
/// drift from the first corner.
proof fn lemma_swept(mask: Mask, steps: Seq<Edge>, n: nat)
    requires
        0 < mask.w <= usize::MAX,
        0 <= mask.h <= usize::MAX,
        well_walked(mask, steps),
        mask.after(steps.last()) == steps[0],
        n <= steps.len(),
    ensures
        ({
            let points = steps.map_values(|e: Edge| e.corner());
            let to = if n == 0 {
                steps[0]
            } else {
                steps[next(n - 1, steps.len() as int)]
            };
            around(points, sweep(), n) == 2 * grid_sum(
                tallies(steps.take(n as int)),
                mask.w as nat,
                mask.h as nat,
            ) + drift(mask.h, to.x, to.y) - drift(mask.h, steps[0].x, steps[0].y)
        }),
    decreases n,
{
    let (w, h) = (mask.w as nat, mask.h as nat);
    if n == 0 {
        assert(steps.take(0) =~= Seq::<Edge>::empty());
        assert forall|px: int, py: int| #[trigger] (tallies(steps.take(0)))(px, py) == 0 by {}
        lemma_grid_sum_zero(tallies(steps.take(0)), w, h);
    } else {
        let len = steps.len() as int;
        let points = steps.map_values(|e: Edge| e.corner());
        let e = steps[n - 1];
        lemma_swept(mask, steps, (n - 1) as nat);
        lemma_stride(mask, steps, n - 1, 0, 0);
        lemma_round_trip(n - 1, len);
        if n > 1 {
            assert(next(n - 2, len) == n - 1);
        }
        assert(0 <= e.dir < 4 && mask.boundary(e));
        let then = steps[next(n - 1, len)];
        crate::paths::a_boundary_goes_on(mask, e);
        assert(mask.boundary(then));
        assert(steps.take(n as int).drop_last() =~= steps.take(n - 1));
        assert(steps.take(n as int).last() == e);
        lemma_grid_sum_adds(
            tallies(steps.take(n - 1)),
            weights(e),
            tallies(steps.take(n as int)),
            w,
            h,
        );
        lemma_grid_of_weights(e, w, h);
        lemma_sweep_of_step(mask.h, e);
        assert(points[n - 1] == e.corner());
        assert(points[next(n - 1, len)] == then.corner());
        assert((sweep())(points[n - 1], points[next(n - 1, len)]) == e.x * then.y - then.x * e.y);
    }
}

/// The pixels that a walk winds round, by their crossings, are twice its area.
proof fn lemma_area_of_walk(mask: Mask, p: int)
    requires
        sound(mask),
        0 <= p < mask.w * mask.h,
        mask.starts(p),
    ensures
        ({
            let points = mask.corners(p % mask.w, p / mask.w);
            crate::paths::area(points, points.len()) == 2 * grid_sum(
                tallies(round(mask, p)),
                mask.w as nat,
                mask.h as nat,
            )
        }),
{
    let steps = round(mask, p);
    let points = mask.corners(p % mask.w, p / mask.w);
    lemma_round(mask, p);
    assert(closes(mask, p));
    lemma_swept(mask, steps, steps.len());
    assert(steps.take(steps.len() as int) =~= steps);
    assert(next(steps.len() - 1, steps.len() as int) == 0);
    assert(points =~= steps.map_values(|e: Edge| e.corner()));
    lemma_area(points, points.len());
}

spec fn totals(mask: Mask, n: nat) -> spec_fn(int, int) -> int {
    |px: int, py: int| total(mask, px, py, n)
}

/// A traced contour has the area of its walk.
proof fn lemma_area_kept<D: Fn((usize, usize), (usize, usize), (usize, usize)) -> Scalar>(distance: D, tolerance: Scalar, mask: Mask, p: int)
    requires
        tells_turns(distance, mask.w, mask.h),
        !crate::scalar::zero().below(tolerance),
        sound(mask),
        0 <= p < mask.w * mask.h,
        mask.starts(p),
    ensures
        ({
            let (x, y) = (p % mask.w, p / mask.w);
            let points = mask.contour(x, y, distance, tolerance).points;
            crate::paths::area(points, points.len()) == crate::paths::area(
                mask.corners(x, y),
                mask.corners(x, y).len(),
            )
        }),
{
    let points = mask.corners(p % mask.w, p / mask.w);
    let rest = crate::paths::simplified(points, distance, tolerance);
    lemma_rambles(mask, p);
    lemma_sweep_adds_up();
    lemma_simplified(
        distance,
        tolerance,
        mask.w,
        mask.h,
        points,
        round(mask, p).map_values(|e: Edge| e.dir),
        sweep(),
    );
    lemma_area(points, points.len());
    lemma_area(rest, rest.len());
}

proof fn lemma_areas<D: Fn((usize, usize), (usize, usize), (usize, usize)) -> Scalar>(distance: D, tolerance: Scalar, mask: Mask, n: nat)
    requires
        tells_turns(distance, mask.w, mask.h),
        !crate::scalar::zero().below(tolerance),
        sound(mask),
        n <= mask.w * mask.h,
    ensures
        areas(mask.contours(distance, tolerance, n)) == 2 * grid_sum(
            totals(mask, n),
            mask.w as nat,
            mask.h as nat,
        ),
        forall|i: int|
            0 <= i < mask.contours(distance, tolerance, n).len() ==> ({
                let o = #[trigger] mask.contours(distance, tolerance, n)[i];
                o.outer == (crate::paths::area(o.points, o.points.len()) > 0)
            }),
    decreases n,
{
    let (w, h) = (mask.w as nat, mask.h as nat);
    if n == 0 {
        assert forall|px: int, py: int| #[trigger] (totals(mask, 0))(px, py) == 0 by {}
        lemma_grid_sum_zero(totals(mask, 0), w, h);
    } else {
        lemma_areas(distance, tolerance, mask, (n - 1) as nat);
        let rest = mask.contours(distance, tolerance, (n - 1) as nat);
        if mask.starts(n - 1) {
            let (x, y) = ((n - 1) % mask.w, (n - 1) / mask.w);
            lemma_rambles(mask, n - 1);
            lemma_area_kept(distance, tolerance, mask, n - 1);
            lemma_area_of_walk(mask, n - 1);
            lemma_grid_sum_adds(
                totals(mask, (n - 1) as nat),
                tallies(round(mask, n - 1)),
                totals(mask, n),
                w,
                h,
            );
            let now = mask.contours(distance, tolerance, n);
            assert(now == rest.push(mask.contour(x, y, distance, tolerance)));
            assert(now.drop_last() =~= rest);
            assert forall|i: int| 0 <= i < now.len() implies ({
                let o = #[trigger] now[i];
                o.outer == (crate::paths::area(o.points, o.points.len()) > 0)
            }) by {
                if i < rest.len() {
                    assert(now[i] == rest[i]);
                }
            }
        } else {
            assert(totals(mask, n) =~= totals(mask, (n - 1) as nat)) by {
                assert forall|px: int, py: int| #[trigger] (totals(mask, n))(px, py) == (totals(
                    mask,
                    (n - 1) as nat,
                ))(px, py) by {}
            }
        }
    }
}

proof fn lemma_selected_row(mask: Mask, y: int, n: nat)
    requires
        sound(mask),
        0 <= y,
    ensures
        row_sum(totals(mask, (mask.w * mask.h) as nat), y, n) == selected_in_row(mask, y, n),
    decreases n,
{
    if n > 0 {
        lemma_selected_row(mask, y, (n - 1) as nat);
        lemma_total(mask, n - 1, y);
    }
}

proof fn lemma_selected(mask: Mask, rows: nat)
    requires
        sound(mask),
    ensures
        grid_sum(totals(mask, (mask.w * mask.h) as nat), mask.w as nat, rows) == selected(
            mask,
            rows,
        ),
    decreases rows,
{
    if rows > 0 {
        lemma_selected(mask, (rows - 1) as nat);
        lemma_selected_row(mask, rows - 1, mask.w as nat);
    }
}

/// The contours have the area of the selection: traced without tolerance, their
/// signed areas add up to the number of selected pixels, and a contour is an
/// outer one exactly where its own area is positive. Left out are selections of
/// which a walk does not close.
pub proof fn contours_have_the_area_of_the_selection<D: Fn((usize, usize), (usize, usize), (usize, usize)) -> Scalar>(
    coverage: Seq<u8>,
    width: int,
    height: int,
    threshold: u8,
    distance: D,
    tolerance: Scalar,
)
    requires
        0 < width <= usize::MAX,
        0 <= height <= usize::MAX,
        coverage.len() >= width * height,
        all_close(Mask { cells: coverage, w: width, h: height, threshold }),
        tells_turns(distance, width, height),
        !crate::scalar::zero().below(tolerance),
    ensures
        ({
            let mask = Mask { cells: coverage, w: width, h: height, threshold };
            let list = crate::paths::traced(
                coverage,
                width,
                height,
                threshold,
                distance,
                tolerance,
            );
            &&& areas(list) == 2 * selected(mask, height as nat)
            &&& forall|i: int|
                0 <= i < list.len() ==> (#[trigger] list[i]).outer == (crate::paths::area(
                    list[i].points,
                    list[i].points.len(),
                ) > 0)
        }),
{
    let mask = Mask { cells: coverage, w: width, h: height, threshold };
    assert(0 <= width * height) by (nonlinear_arith)
        requires
            0 < width,
            0 <= height,
    ;
    lemma_areas(distance, tolerance, mask, (width * height) as nat);
    lemma_selected(mask, height as nat);
}

} // verus!
