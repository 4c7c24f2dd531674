//! Content-aware fill: exemplar-based inpainting.
//!
//! A hole is filled patch by patch from its boundary inward. Each patch is
//! copied from the best match elsewhere in the image, so that the fill is made
//! of real pixels and keeps the grain that any smoothing would destroy. The next
//! patch is the one on the boundary with the highest priority: how much of it is
//! trusted, times how strongly an edge runs into the hole there. That arithmetic
//! is floating point and is the caller's; what it is applied to, and in which
//! order, is decided here.
//!
//! The search is bounded to a window around the target, it runs at a single
//! scale, and it is deterministic.
use crate::coverage::SelectionCoverage;
use crate::scalar::{Scalar, ONE, ZERO};
use vstd::prelude::*;

verus! {

/// Patch half-width: patches are 9×9.
pub const R: i32 = 4;

/// How far from a target patch its exemplar is looked for.
pub const SEARCH: i32 = 96;

/// What a rating says of a patch on the fill front.
#[derive(Debug, Clone, Copy, PartialEq, Eq, Structural)]
pub struct Rating {
    /// The patch with the highest priority is filled first.
    pub priority: Scalar,
    /// The confidence that its pixels inherit.
    pub confidence: Scalar,
}

/// A stage of a fill: the pixels, which of them are source material, and how
/// far each is trusted.
#[verifier::ext_equal]
pub struct Stage {
    pub out: Seq<u8>,
    pub known: Seq<bool>,
    pub conf: Seq<Scalar>,
}

/// The arithmetic of the priorities.
pub struct Priorities<M, S, E, P> {
    /// The sum of some confidences over a number of pixels.
    pub mean: M,
    /// Half the difference of the luminances of two colours.
    pub slope: S,
    /// How strongly an edge of these two slopes runs along a normal, given as
    /// twice its components.
    pub edge: E,
    /// The priority of a confidence and an edge.
    pub priority: P,
}

/// Whether a place lies on the image.
pub open spec fn on_image(w: int, h: int, x: int, y: int) -> bool {
    0 <= x < w && 0 <= y < h
}

/// The pixel at column `x` of row `y`.
pub open spec fn pixel(w: int, x: int, y: int) -> int {
    y * w + x
}

/// Whether a place on the image is source material.
pub open spec fn known_at(known: Seq<bool>, w: int, h: int, x: int, y: int) -> bool {
    on_image(w, h, x, y) && known[pixel(w, x, y)]
}

/// Whether a pixel is on the fill front: unknown, with a known neighbour.
pub open spec fn front(known: Seq<bool>, w: int, h: int, x: int, y: int) -> bool {
    &&& on_image(w, h, x, y)
    &&& !known[pixel(w, x, y)]
    &&& known_at(known, w, h, x + 1, y) || known_at(known, w, h, x - 1, y) || known_at(
        known,
        w,
        h,
        x,
        y + 1,
    ) || known_at(known, w, h, x, y - 1)
}

/// Whether `(x, y)` is in the patch at `(tx, ty)`.
pub open spec fn in_patch(tx: int, ty: int, x: int, y: int) -> bool {
    tx - R <= x <= tx + R && ty - R <= y <= ty + R
}

/// The squared difference of two pixels over red, green and blue.
pub open spec fn pixel_difference(rgba: Seq<u8>, p: int, q: int) -> int {
    let d0 = rgba[4 * p] - rgba[4 * q];
    let d1 = rgba[4 * p + 1] - rgba[4 * q + 1];
    let d2 = rgba[4 * p + 2] - rgba[4 * q + 2];
    d0 * d0 + d1 * d1 + d2 * d2
}

/// The squared difference of a target patch and a source patch over the first
/// `k` places of the patch, counting the target's known pixels only.
pub open spec fn difference(
    rgba: Seq<u8>,
    known: Seq<bool>,
    w: int,
    h: int,
    tx: int,
    ty: int,
    sx: int,
    sy: int,
    k: nat,
) -> int
    decreases k,
{
    if k == 0 {
        0
    } else {
        let dx = (k - 1) % 9 - R;
        let dy = (k - 1) / 9 - R;
        difference(rgba, known, w, h, tx, ty, sx, sy, (k - 1) as nat) + (if known_at(
            known,
            w,
            h,
            tx + dx,
            ty + dy,
        ) {
            pixel_difference(rgba, pixel(w, tx + dx, ty + dy), pixel(w, sx + dx, sy + dy))
        } else {
            0
        })
    }
}

/// How far a source patch is from what is known of the target patch.
pub open spec fn distance(
    rgba: Seq<u8>,
    known: Seq<bool>,
    w: int,
    h: int,
    t: (int, int),
    s: (int, int),
) -> int {
    difference(rgba, known, w, h, t.0, t.1, s.0, s.1, 81)
}

/// Whether a patch lies on the image and is source material throughout.
/// Copying from a partly unfilled patch would propagate the hole.
pub open spec fn whole(known: Seq<bool>, w: int, h: int, s: (int, int)) -> bool {
    &&& R <= s.0 < w - R
    &&& R <= s.1 < h - R
    &&& forall|x: int, y: int|
        #![trigger known_at(known, w, h, x, y)]
        in_patch(s.0, s.1, x, y) ==> known_at(known, w, h, x, y)
}

/// Whether a target patch has a known pixel to be compared by.
pub open spec fn comparable(known: Seq<bool>, w: int, h: int, t: (int, int)) -> bool {
    exists|x: int, y: int|
        #![trigger known_at(known, w, h, x, y)]
        in_patch(t.0, t.1, x, y) && known_at(known, w, h, x, y)
}

/// Whether a patch can stand in for the target.
pub open spec fn candidate(
    known: Seq<bool>,
    w: int,
    h: int,
    t: (int, int),
    s: (int, int),
) -> bool {
    &&& t.0 - SEARCH <= s.0 <= t.0 + SEARCH
    &&& t.1 - SEARCH <= s.1 <= t.1 + SEARCH
    &&& whole(known, w, h, s)
    &&& comparable(known, w, h, t)
}

/// Whether `a` comes before `b` in reading order.
pub open spec fn before(a: (int, int), b: (int, int)) -> bool {
    a.1 < b.1 || (a.1 == b.1 && a.0 < b.0)
}

/// Whether `s` is the exemplar of `t`: the candidate that differs least, and
/// the first of those in reading order.
pub open spec fn exemplar(
    rgba: Seq<u8>,
    known: Seq<bool>,
    w: int,
    h: int,
    t: (int, int),
    s: (int, int),
) -> bool {
    &&& candidate(known, w, h, t, s)
    &&& forall|c: (int, int)|
        #![trigger candidate(known, w, h, t, c)]
        candidate(known, w, h, t, c) ==> {
            &&& distance(rgba, known, w, h, t, s) <= distance(rgba, known, w, h, t, c)
            &&& before(c, s) ==> distance(rgba, known, w, h, t, s) < distance(
                rgba,
                known,
                w,
                h,
                t,
                c,
            )
        }
}

/// The source material once the patch at `t` is done.
pub open spec fn known_after(known: Seq<bool>, w: int, t: (int, int)) -> Seq<bool> {
    Seq::new(known.len(), |p: int| known[p] || in_patch(t.0, t.1, p % w, p / w))
}

/// The pixels once the unknown part of the patch at `t` was copied from `s`.
pub open spec fn patched(
    out: Seq<u8>,
    known: Seq<bool>,
    w: int,
    t: (int, int),
    s: (int, int),
) -> Seq<u8> {
    Seq::new(
        out.len(),
        |i: int|
            {
                let p = i / 4;
                if p < known.len() && !known[p] && in_patch(t.0, t.1, p % w, p / w) {
                    out[4 * pixel(w, p % w - t.0 + s.0, p / w - t.1 + s.1) + i % 4]
                } else {
                    out[i]
                }
            },
    )
}

/// The confidences once the patch at `t` is done: the pixels that were copied
/// inherit that of the patch, so that material copied later is trusted less.
pub open spec fn conf_after(a: Stage, w: int, h: int, t: (int, int), confidence: Scalar) -> Seq<
    Scalar,
> {
    let found = exists|s: (int, int)| #[trigger] candidate(a.known, w, h, t, s);
    Seq::new(
        a.conf.len(),
        |p: int|
            if found && !a.known[p] && in_patch(t.0, t.1, p % w, p / w) {
                confidence
            } else {
                a.conf[p]
            },
    )
}

/// Whether filling the patch at `t`, on the front, leads from `a` to `b`: its
/// unknown pixels come from its exemplar, or, where there is none, stay as
/// they are.
pub open spec fn fills_patch(
    a: Stage,
    b: Stage,
    w: int,
    h: int,
    t: (int, int),
    confidence: Scalar,
) -> bool {
    &&& front(a.known, w, h, t.0, t.1)
    &&& b.known == known_after(a.known, w, t)
    &&& b.conf == conf_after(a, w, h, t, confidence)
    &&& {
        ||| exists|s: (int, int)|
            #![trigger exemplar(a.out, a.known, w, h, t, s)]
            exemplar(a.out, a.known, w, h, t, s) && b.out == patched(a.out, a.known, w, t, s)
        ||| (forall|s: (int, int)| !(#[trigger] candidate(a.known, w, h, t, s))) && b.out == a.out
    }
}

/// The confidences of the known pixels among the first `k` places of a patch.
pub open spec fn confidences(
    conf: Seq<Scalar>,
    known: Seq<bool>,
    w: int,
    h: int,
    x: int,
    y: int,
    k: nat,
) -> Seq<Scalar>
    decreases k,
{
    if k == 0 {
        Seq::empty()
    } else {
        let (px, py) = (x + (k - 1) % 9 - R, y + (k - 1) / 9 - R);
        let rest = confidences(conf, known, w, h, x, y, (k - 1) as nat);
        if known_at(known, w, h, px, py) {
            rest.push(conf[pixel(w, px, py)])
        } else {
            rest
        }
    }
}

/// How many of the first `k` places of a patch lie on the image.
pub open spec fn patch_area(w: int, h: int, x: int, y: int, k: nat) -> nat
    decreases k,
{
    if k == 0 {
        0
    } else {
        patch_area(w, h, x, y, (k - 1) as nat) + (if on_image(
            w,
            h,
            x + (k - 1) % 9 - R,
            y + (k - 1) / 9 - R,
        ) {
            1nat
        } else {
            0nat
        })
    }
}

/// One where a place is known or off the image, zero in the hole.
pub open spec fn solid(known: Seq<bool>, w: int, h: int, x: int, y: int) -> int {
    if on_image(w, h, x, y) && !known[pixel(w, x, y)] {
        0
    } else {
        1
    }
}

/// Twice the normal of the front at a place: the slope of what is known.
pub open spec fn normal(known: Seq<bool>, w: int, h: int, x: int, y: int) -> (int, int) {
    (
        solid(known, w, h, x + 1, y) - solid(known, w, h, x - 1, y),
        solid(known, w, h, x, y + 1) - solid(known, w, h, x, y - 1),
    )
}

impl<
    M: Fn(&Vec<Scalar>, u32) -> Scalar,
    S: Fn(u8, u8, u8, u8, u8, u8) -> Scalar,
    E: Fn(Scalar, Scalar, i32, i32) -> Scalar,
    P: Fn(Scalar, Scalar) -> Scalar,
> Priorities<M, S, E, P> {
    /// Whether the arithmetic takes everything that it is handed.
    pub open spec fn total(self) -> bool {
        &&& forall|v: Vec<Scalar>, n: u32| #[trigger] self.mean.requires((&v, n))
        &&& forall|a: u8, b: u8, c: u8, d: u8, e: u8, f: u8| #[trigger]
            self.slope.requires((a, b, c, d, e, f))
        &&& forall|a: Scalar, b: Scalar, x: i32, y: i32| #[trigger] self.edge.requires((a, b, x, y))
        &&& forall|a: Scalar, b: Scalar| #[trigger] self.priority.requires((a, b))
    }

    /// Whether `c` is how far a patch is trusted: the confidences of its known
    /// pixels over all its pixels on the image.
    pub open spec fn trusts(
        self,
        conf: Seq<Scalar>,
        known: Seq<bool>,
        w: int,
        h: int,
        x: int,
        y: int,
        c: Scalar,
    ) -> bool {
        exists|v: Vec<Scalar>|
            #![trigger self.mean.ensures((&v, patch_area(w, h, x, y, 81) as u32), c)]
            v@ == confidences(conf, known, w, h, x, y, 81) && self.mean.ensures(
                (&v, patch_area(w, h, x, y, 81) as u32),
                c,
            )
    }

    /// Whether `g` is the slope from one place to another. A neighbour that is
    /// not known contributes nothing rather than an invented slope.
    pub open spec fn slopes(
        self,
        rgba: Seq<u8>,
        known: Seq<bool>,
        w: int,
        h: int,
        to: (int, int),
        from: (int, int),
        g: Scalar,
    ) -> bool {
        if known_at(known, w, h, to.0, to.1) && known_at(known, w, h, from.0, from.1) {
            let (i, j) = (pixel(w, to.0, to.1), pixel(w, from.0, from.1));
            self.slope.ensures(
                (
                    rgba[4 * i],
                    rgba[4 * i + 1],
                    rgba[4 * i + 2],
                    rgba[4 * j],
                    rgba[4 * j + 1],
                    rgba[4 * j + 2],
                ),
                g,
            )
        } else {
            g == crate::scalar::zero()
        }
    }

    /// Whether `d` is how strongly an edge runs into the hole at a place; zero
    /// where the front has no direction.
    pub open spec fn leads(
        self,
        rgba: Seq<u8>,
        known: Seq<bool>,
        w: int,
        h: int,
        x: int,
        y: int,
        d: Scalar,
    ) -> bool {
        let n = normal(known, w, h, x, y);
        if n.0 == 0 && n.1 == 0 {
            d == crate::scalar::zero()
        } else {
            exists|gx: Scalar, gy: Scalar|
                #![trigger self.edge.ensures((gx, gy, n.0 as i32, n.1 as i32), d)]
                self.slopes(rgba, known, w, h, (x + 1, y), (x - 1, y), gx) && self.slopes(
                    rgba,
                    known,
                    w,
                    h,
                    (x, y + 1),
                    (x, y - 1),
                    gy,
                ) && self.edge.ensures((gx, gy, n.0 as i32, n.1 as i32), d)
        }
    }

    /// Whether a place on the front has this rating.
    pub open spec fn rates(self, a: Stage, w: int, h: int, x: int, y: int, r: Rating) -> bool {
        &&& self.trusts(a.conf, a.known, w, h, x, y, r.confidence)
        &&& exists|d: Scalar|
            #![trigger self.priority.ensures((r.confidence, d), r.priority)]
            self.leads(a.out, a.known, w, h, x, y, d) && self.priority.ensures((r.confidence, d), r.priority)
    }

    /// Whether a place on the front does not come before one that has rating
    /// `r`: its own rating is not above, nor as high where it is read first.
    pub open spec fn yields(
        self,
        a: Stage,
        w: int,
        h: int,
        x: int,
        y: int,
        t: (int, int),
        r: Rating,
    ) -> bool {
        exists|q: Rating| #[trigger]
            self.rates(a, w, h, x, y, q) && !r.priority.below(q.priority) && (before((x, y), t)
                ==> !q.priority.equals(r.priority))
    }

    /// Whether `t` is the place on the front with the highest priority, the
    /// first of them in reading order.
    pub open spec fn foremost(self, a: Stage, w: int, h: int, t: (int, int), r: Rating) -> bool {
        &&& front(a.known, w, h, t.0, t.1)
        &&& self.rates(a, w, h, t.0, t.1, r)
        &&& forall|x: int, y: int|
            #![trigger front(a.known, w, h, x, y)]
            front(a.known, w, h, x, y) ==> self.yields(a, w, h, x, y, t, r)
    }

    /// Whether filling the foremost patch leads from `a` to `b`.
    pub open spec fn advances(self, a: Stage, b: Stage, w: int, h: int) -> bool {
        exists|t: (int, int), r: Rating| #[trigger]
            self.foremost(a, w, h, t, r) && fills_patch(a, b, w, h, t, r.confidence)
    }

    /// Whether the stages are a fill from `first` to `last`.
    pub open spec fn fill_run(
        self,
        stages: Seq<Stage>,
        first: Stage,
        last: Stage,
        w: int,
        h: int,
    ) -> bool {
        &&& stages.len() > 0
        &&& stages[0] == first
        &&& stages.last() == last
        &&& forall|i: int|
            #![trigger stages[i]]
            0 < i < stages.len() ==> self.advances(stages[i - 1], stages[i], w, h)
    }
}

/// The pixels that a selection leaves as source material.
pub open spec fn unselected(coverage: SelectionCoverage, threshold: u8) -> Seq<bool> {
    Seq::new(coverage.cells().len(), |p: int| coverage.cells()[p] < threshold)
}

/// How many of the first `n` flags are clear.
pub open spec fn clear_count(known: Seq<bool>, n: nat) -> nat
    decreases n,
{
    if n == 0 {
        0
    } else {
        clear_count(known, (n - 1) as nat) + (if known[n - 1] {
            0nat
        } else {
            1nat
        })
    }
}

proof fn lemma_clear_count_bound(known: Seq<bool>, n: nat)
    requires
        n <= known.len(),
    ensures
        clear_count(known, n) <= n,
        clear_count(known, n) == 0 <==> (forall|p: int| 0 <= p < n ==> #[trigger] known[p]),
        clear_count(known, n) == n <==> (forall|p: int| 0 <= p < n ==> !(#[trigger] known[p])),
    decreases n,
{
    if n > 0 {
        lemma_clear_count_bound(known, (n - 1) as nat);
        assert(known[n - 1] || !known[n - 1]);
    }
}

proof fn lemma_clear_count_set(known: Seq<bool>, p: int, n: nat)
    requires
        0 <= p < known.len(),
        n <= known.len(),
        !known[p],
    ensures
        clear_count(known.update(p, true), n) == clear_count(known, n) - (if p < n {
            1int
        } else {
            0int
        }),
    decreases n,
{
    if n > 0 {
        lemma_clear_count_set(known, p, (n - 1) as nat);
    }
}

/// The four bytes of pixel `i`.
pub fn rgba_at(buf: &[u8], i: usize) -> (texel: [u8; 4])
    requires
        4 * i + 4 <= buf@.len(),
    ensures
        texel@ == buf@.subrange(4 * i, 4 * i + 4),
{
    let len: usize = buf.len();
    let texel: [u8; 4] = [buf[i * 4], buf[i * 4 + 1], buf[i * 4 + 2], buf[i * 4 + 3]];
    proof {
        assert(texel@ =~= buf@.subrange(4 * i, 4 * i + 4));
    }
    texel
}

fn known_place(known: &[bool], w: i32, h: i32, x: i64, y: i64) -> (yes: bool)
    requires
        0 <= w,
        0 <= h,
        known@.len() == w * h,
    ensures
        yes == known_at(known@, w as int, h as int, x as int, y as int),
{
    let len: usize = known.len();
    if x < 0 || y < 0 || x >= w as i64 || y >= h as i64 {
        return false;
    }
    proof {
        crate::grid::lemma_pixel_index(x as int, y as int, w as int, h as int);
        assert(0 <= y * w) by (nonlinear_arith)
            requires
                0 <= y,
                0 <= w,
        ;
    }
    known[y as usize * w as usize + x as usize]
}

/// Is this pixel on the fill front: unknown, with a known neighbour?
pub fn on_front(known: &[bool], w: i32, h: i32, x: i32, y: i32) -> (yes: bool)
    requires
        0 <= x < w,
        0 <= y < h,
        known@.len() == w * h,
    ensures
        yes <==> front(known@, w as int, h as int, x as int, y as int),
{
    let (px, py): (i64, i64) = (x as i64, y as i64);
    if known_place(known, w, h, px, py) {
        return false;
    }
    known_place(known, w, h, px + 1, py) || known_place(known, w, h, px - 1, py) || known_place(
        known,
        w,
        h,
        px,
        py + 1,
    ) || known_place(known, w, h, px, py - 1)
}

/// The bytes of the colour of pixel `i`.
fn color_at(rgba: &[u8], i: usize) -> (c: (u8, u8, u8))
    requires
        4 * i + 4 <= rgba@.len(),
    ensures
        c == (rgba@[4 * i], rgba@[4 * i + 1], rgba@[4 * i + 2]),
{
    let texel: [u8; 4] = rgba_at(rgba, i);
    proof {
        assert(texel@[0] == rgba@[4 * i]);
        assert(texel@[1] == rgba@[4 * i + 1]);
        assert(texel@[2] == rgba@[4 * i + 2]);
    }
    (texel[0], texel[1], texel[2])
}

fn solid_at(known: &[bool], w: i32, h: i32, x: i64, y: i64) -> (m: i32)
    requires
        0 <= w,
        0 <= h,
        known@.len() == w * h,
    ensures
        m == solid(known@, w as int, h as int, x as int, y as int),
        0 <= m <= 1,
{
    if x < 0 || y < 0 || x >= w as i64 || y >= h as i64 {
        1
    } else if known_place(known, w, h, x, y) {
        1
    } else {
        0
    }
}

impl<
    M: Fn(&Vec<Scalar>, u32) -> Scalar,
    S: Fn(u8, u8, u8, u8, u8, u8) -> Scalar,
    E: Fn(Scalar, Scalar, i32, i32) -> Scalar,
    P: Fn(Scalar, Scalar) -> Scalar,
> Priorities<M, S, E, P> {
    /// How far a patch is trusted.
    pub fn mean_conf(
        &self,
        conf: &Vec<Scalar>,
        known: &Vec<bool>,
        w: i32,
        h: i32,
        x: i32,
        y: i32,
    ) -> (c: Scalar)
        requires
            self.total(),
            0 <= x < w,
            0 <= y < h,
            known@.len() == w * h,
            conf@.len() == w * h,
        ensures
            self.trusts(
                conf@,
                known@,
                w as int,
                h as int,
                x as int,
                y as int,
                c,
            ),
    {
        let len: usize = known.len();
        let mut sum: Vec<Scalar> = Vec::new();
        let mut count: u32 = 0;
        let mut k: i64 = 0;
        while k < 81
            invariant
                0 <= x < w,
                0 <= y < h,
                len == w * h,
                known@.len() == len,
                conf@.len() == len,
                0 <= k <= 81,
                sum@ == confidences(
                    conf@,
                    known@,
                    w as int,
                    h as int,
                    x as int,
                    y as int,
                    k as nat,
                ),
                count == patch_area(w as int, h as int, x as int, y as int, k as nat),
                count <= k,
            decreases 81 - k,
        {
            let px: i64 = x as i64 + k % 9 - R as i64;
            let py: i64 = y as i64 + k / 9 - R as i64;
            if 0 <= px && 0 <= py && px < w as i64 && py < h as i64 {
                count = count + 1;
                if known_place(known.as_slice(), w, h, px, py) {
                    proof {
                        crate::grid::lemma_pixel_index(px as int, py as int, w as int, h as int);
                        assert(0 <= py * w) by (nonlinear_arith)
                            requires
                                0 <= py,
                                0 <= w,
                        ;
                    }
                    sum.push(conf[py as usize * w as usize + px as usize]);
                }
            }
            k = k + 1;
        }
        let mean = &self.mean;
        assert(mean.requires((&sum, count)));
        let c: Scalar = mean(&sum, count);
        proof {
            let area = patch_area(w as int, h as int, x as int, y as int, 81);
            assert(count == area as u32);
            assert(self.mean.ensures((&sum, area as u32), c));
        }
        c
    }

    fn slope_between(
        &self,
        rgba: &Vec<u8>,
        known: &Vec<bool>,
        w: i32,
        h: i32,
        to: (i64, i64),
        from: (i64, i64),
    ) -> (g: Scalar)
        requires
            self.total(),
            0 <= w,
            0 <= h,
            known@.len() == w * h,
            rgba@.len() >= w * h * 4,
        ensures
            self.slopes(
                rgba@,
                known@,
                w as int,
                h as int,
                (to.0 as int, to.1 as int),
                (from.0 as int, from.1 as int),
                g,
            ),
    {
        if known_place(known.as_slice(), w, h, to.0, to.1) && known_place(
            known.as_slice(),
            w,
            h,
            from.0,
            from.1,
        ) {
            let len: usize = known.len();
            proof {
                let (gw, gh) = (w as int, h as int);
                crate::grid::lemma_pixel_index(to.0 as int, to.1 as int, gw, gh);
                crate::grid::lemma_pixel_index(from.0 as int, from.1 as int, gw, gh);
                assert(0 <= to.1 * w && 0 <= from.1 * w) by (nonlinear_arith)
                    requires
                        0 <= to.1,
                        0 <= from.1,
                        0 <= w,
                ;
            }
            let i: usize = to.1 as usize * w as usize + to.0 as usize;
            let j: usize = from.1 as usize * w as usize + from.0 as usize;
            let a: (u8, u8, u8) = color_at(rgba.as_slice(), i);
            let b: (u8, u8, u8) = color_at(rgba.as_slice(), j);
            let slope = &self.slope;
            assert(slope.requires((a.0, a.1, a.2, b.0, b.1, b.2)));
            slope(a.0, a.1, a.2, b.0, b.1, b.2)
        } else {
            Scalar { bits: ZERO }
        }
    }

    /// How strongly an edge runs into the hole at a place: the term that makes
    /// structure continue.
    pub fn data_term(
        &self,
        rgba: &Vec<u8>,
        known: &Vec<bool>,
        w: i32,
        h: i32,
        x: i32,
        y: i32,
    ) -> (d: Scalar)
        requires
            self.total(),
            0 <= x < w,
            0 <= y < h,
            known@.len() == w * h,
            rgba@.len() >= w * h * 4,
        ensures
            self.leads(
                rgba@,
                known@,
                w as int,
                h as int,
                x as int,
                y as int,
                d,
            ),
    {
        let (px, py): (i64, i64) = (x as i64, y as i64);
        let k: &[bool] = known.as_slice();
        let nx: i32 = solid_at(k, w, h, px + 1, py) - solid_at(k, w, h, px - 1, py);
        let ny: i32 = solid_at(k, w, h, px, py + 1) - solid_at(k, w, h, px, py - 1);
        if nx == 0 && ny == 0 {
            return Scalar { bits: ZERO };
        }
        let gx: Scalar = self.slope_between(rgba, known, w, h, (px + 1, py), (px - 1, py));
        let gy: Scalar = self.slope_between(rgba, known, w, h, (px, py + 1), (px, py - 1));
        let edge = &self.edge;
        assert(edge.requires((gx, gy, nx, ny)));
        edge(gx, gy, nx, ny)
    }

    fn rate(
        &self,
        rgba: &Vec<u8>,
        known: &Vec<bool>,
        conf: &Vec<Scalar>,
        w: i32,
        h: i32,
        x: i32,
        y: i32,
    ) -> (r: Rating)
        requires
            self.total(),
            0 <= x < w,
            0 <= y < h,
            known@.len() == w * h,
            conf@.len() == w * h,
            rgba@.len() >= w * h * 4,
        ensures
            self.rates(
                (Stage { out: rgba@, known: known@, conf: conf@ }),
                w as int,
                h as int,
                x as int,
                y as int,
                r,
            ),
    {
        let c: Scalar = self.mean_conf(conf, known, w, h, x, y);
        let d: Scalar = self.data_term(rgba, known, w, h, x, y);
        let priority = &self.priority;
        assert(priority.requires((c, d)));
        let p: Scalar = priority(c, d);
        let r: Rating = Rating { priority: p, confidence: c };
        assert(self.priority.ensures((r.confidence, d), r.priority));
        r
    }

    /// The front pixel with the highest priority, with its rating. Of equals the
    /// first in reading order is taken.
    pub fn best_front_patch(
        &self,
        rgba: &Vec<u8>,
        known: &Vec<bool>,
        conf: &Vec<Scalar>,
        w: i32,
        h: i32,
    ) -> (best: Option<(i32, i32, Rating)>)
        requires
            self.total(),
            0 <= w,
            0 <= h,
            known@.len() == w * h,
            conf@.len() == w * h,
            rgba@.len() >= w * h * 4,
        ensures
            best is None <==> forall|x: int, y: int|
                !(#[trigger] front(known@, w as int, h as int, x, y)),
            best matches Some((bx, by, r)) ==> self.foremost(
                (Stage { out: rgba@, known: known@, conf: conf@ }),
                w as int,
                h as int,
                (bx as int, by as int),
                r,
            ),
    {
        let ghost a = Stage { out: rgba@, known: known@, conf: conf@ };
        let ghost (gw, gh) = (w as int, h as int);
        let mut best: Option<(i32, i32, Rating)> = None;
        let mut y: i32 = 0;
        while y < h
            invariant
                self.total(),
                0 <= w,
                0 <= y <= h,
                gw == w,
                gh == h,
                a == (Stage { out: rgba@, known: known@, conf: conf@ }),
                known@.len() == w * h,
                conf@.len() == w * h,
                rgba@.len() >= w * h * 4,
                best is None ==> forall|i: int, j: int|
                    j < y ==> !(#[trigger] front(known@, gw, gh, i, j)),
                best matches Some((bx, by, r)) ==> {
                    &&& front(known@, gw, gh, bx as int, by as int)
                    &&& by < y
                    &&& self.rates(a, gw, gh, bx as int, by as int, r)
                    &&& forall|i: int, j: int|
                        #![trigger front(known@, gw, gh, i, j)]
                        j < y && front(known@, gw, gh, i, j) ==> self.yields(
                            a,
                            gw,
                            gh,
                            i,
                            j,
                            (bx as int, by as int),
                            r,
                        )
                },
            decreases h - y,
        {
            let mut x: i32 = 0;
            while x < w
                invariant
                    self.total(),
                    0 <= x <= w,
                    0 <= y < h,
                    gw == w,
                    gh == h,
                    a == (Stage { out: rgba@, known: known@, conf: conf@ }),
                    known@.len() == w * h,
                    conf@.len() == w * h,
                    rgba@.len() >= w * h * 4,
                    best is None ==> forall|i: int, j: int|
                        before((i, j), (x as int, y as int)) ==> !(#[trigger] front(
                            known@,
                            gw,
                            gh,
                            i,
                            j,
                        )),
                    best matches Some((bx, by, r)) ==> {
                        &&& front(known@, gw, gh, bx as int, by as int)
                        &&& before((bx as int, by as int), (x as int, y as int))
                        &&& self.rates(a, gw, gh, bx as int, by as int, r)
                        &&& forall|i: int, j: int|
                            #![trigger front(known@, gw, gh, i, j)]
                            before((i, j), (x as int, y as int)) && front(known@, gw, gh, i, j)
                                ==> self.yields(a, gw, gh, i, j, (bx as int, by as int), r)
                    },
                decreases w - x,
            {
                if on_front(known.as_slice(), w, h, x, y) {
                    let r: Rating = self.rate(rgba, known, conf, w, h, x, y);
                    let first: bool = match best {
                        None => true,
                        Some((_, _, b)) => b.priority.lt(r.priority),
                    };
                    let ghost was = best;
                    if first {
                        best = Some((x, y, r));
                    }
                    proof {
                        self.lemma_next_best(a, gw, gh, was, (x, y, r), best);
                    }
                }
                x = x + 1;
            }
            y = y + 1;
        }
        best
    }

    /// The best so far stays the best once the next place has been looked at.
    proof fn lemma_next_best(
        self,
        a: Stage,
        w: int,
        h: int,
        was: Option<(i32, i32, Rating)>,
        next: (i32, i32, Rating),
        best: Option<(i32, i32, Rating)>,
    )
        requires
            self.rates(a, w, h, next.0 as int, next.1 as int, next.2),
            was is None ==> forall|i: int, j: int|
                before((i, j), (next.0 as int, next.1 as int)) ==> !(#[trigger] front(
                    a.known,
                    w,
                    h,
                    i,
                    j,
                )),
            was matches Some((bx, by, r)) ==> {
                &&& before((bx as int, by as int), (next.0 as int, next.1 as int))
                &&& forall|i: int, j: int|
                    #![trigger front(a.known, w, h, i, j)]
                    before((i, j), (next.0 as int, next.1 as int)) && front(a.known, w, h, i, j)
                        ==> self.yields(a, w, h, i, j, (bx as int, by as int), r)
            },
            best == (match was {
                Some((_, _, r)) if !r.priority.below(next.2.priority) => was,
                _ => Some(next),
            }),
        ensures
            best matches Some((bx, by, r)) && (forall|i: int, j: int|
                #![trigger front(a.known, w, h, i, j)]
                before((i, j), (next.0 + 1, next.1 as int)) && front(a.known, w, h, i, j)
                    ==> self.yields(a, w, h, i, j, (bx as int, by as int), r)),
    {
        let (bx, by, r) = best.unwrap();
        let t = (bx as int, by as int);
        assert forall|i: int, j: int|
            #![trigger front(a.known, w, h, i, j)]
            before((i, j), (next.0 + 1, next.1 as int)) && front(a.known, w, h, i, j) implies
        self.yields(a, w, h, i, j, t, r) by {
            if before((i, j), (next.0 as int, next.1 as int)) {
                let old_best = was.unwrap();
                let ot = (old_best.0 as int, old_best.1 as int);
                assert(self.yields(a, w, h, i, j, ot, old_best.2));
                let q = choose|q: Rating| #[trigger]
                    self.rates(a, w, h, i, j, q) && !old_best.2.priority.below(q.priority) && (
                    before((i, j), ot) ==> !q.priority.equals(old_best.2.priority));
                assert(self.rates(a, w, h, i, j, q));
                if old_best.2.priority.below(next.2.priority) {
                    assert(!next.2.priority.below(q.priority));
                    assert(!q.priority.equals(next.2.priority));
                }
            } else {
                assert(i == next.0 && j == next.1);
                assert(self.rates(a, w, h, i, j, next.2));
                assert(!next.2.priority.below(next.2.priority));
            }
        }
    }
}

/// What is known of the patch at `t`: its places in order, up to `k`.
spec fn compared(known: Seq<bool>, w: int, h: int, tx: int, ty: int, k: int) -> bool {
    exists|j: int|
        0 <= j < k && #[trigger] known_at(known, w, h, tx + j % 9 - R, ty + j / 9 - R)
}

proof fn lemma_compared(known: Seq<bool>, w: int, h: int, tx: int, ty: int)
    ensures
        compared(known, w, h, tx, ty, 81) <==> comparable(known, w, h, (tx, ty)),
{
    if compared(known, w, h, tx, ty, 81) {
        let j = choose|j: int|
            0 <= j < 81 && #[trigger] known_at(known, w, h, tx + j % 9 - R, ty + j / 9 - R);
        assert(in_patch(tx, ty, tx + j % 9 - R, ty + j / 9 - R));
    }
    if comparable(known, w, h, (tx, ty)) {
        let (x, y) = choose|x: int, y: int|
            #![trigger known_at(known, w, h, x, y)]
            in_patch(tx, ty, x, y) && known_at(known, w, h, x, y);
        let j = (y - ty + R) * 9 + (x - tx + R);
        assert(j % 9 == x - tx + R && j / 9 == y - ty + R);
        assert(known_at(known, w, h, tx + j % 9 - R, ty + j / 9 - R));
    }
}

/// Whether the first `k` places of a patch are source material.
spec fn whole_to(known: Seq<bool>, w: int, h: int, sx: int, sy: int, k: int) -> bool {
    forall|j: int| 0 <= j < k ==> #[trigger] known_at(known, w, h, sx + j % 9 - R, sy + j / 9 - R)
}

proof fn lemma_whole(known: Seq<bool>, w: int, h: int, sx: int, sy: int)
    requires
        R <= sx < w - R,
        R <= sy < h - R,
        whole_to(known, w, h, sx, sy, 81),
    ensures
        whole(known, w, h, (sx, sy)),
{
    assert forall|x: int, y: int|
        #![trigger known_at(known, w, h, x, y)]
        in_patch(sx, sy, x, y) implies known_at(known, w, h, x, y) by {
        let j = (y - sy + R) * 9 + (x - sx + R);
        assert(j % 9 == x - sx + R && j / 9 == y - sy + R);
        assert(known_at(known, w, h, sx + j % 9 - R, sy + j / 9 - R));
    }
}

fn square(a: u8, b: u8) -> (s: i64)
    ensures
        s == (a - b) * (a - b),
        0 <= s <= 65025,
{
    let d: i64 = a as i64 - b as i64;
    proof {
        assert(0 <= d * d <= 65025) by (nonlinear_arith)
            requires
                -255 <= d <= 255,
        ;
    }
    d * d
}

/// Compare a target patch with a source patch: `None` where the source patch
/// is not whole, or where nothing of the target is known.
fn compare_patches(
    rgba: &[u8],
    known: &[bool],
    w: i32,
    h: i32,
    tx: i32,
    ty: i32,
    sx: i32,
    sy: i32,
) -> (score: Option<i64>)
    requires
        0 <= tx < w,
        0 <= ty < h,
        R <= sx < w - R,
        R <= sy < h - R,
        known@.len() == w * h,
        rgba@.len() >= w * h * 4,
    ensures
        score is Some <==> whole(known@, w as int, h as int, (sx as int, sy as int)) && comparable(
            known@,
            w as int,
            h as int,
            (tx as int, ty as int),
        ),
        score matches Some(d) ==> d == distance(
            rgba@,
            known@,
            w as int,
            h as int,
            (tx as int, ty as int),
            (sx as int, sy as int),
        ),
{
    let ghost (gw, gh) = (w as int, h as int);
    let len: usize = rgba.len();
    let mut ssd: i64 = 0;
    let mut any: bool = false;
    let mut k: i64 = 0;
    while k < 81
        invariant
            0 <= k <= 81,
            gw == w,
            gh == h,
            0 <= tx < w,
            0 <= ty < h,
            R <= sx < w - R,
            R <= sy < h - R,
            known@.len() == w * h,
            rgba@.len() >= w * h * 4,
            len == rgba@.len(),
            0 <= ssd <= k * 195075,
            ssd == difference(
                rgba@,
                known@,
                gw,
                gh,
                tx as int,
                ty as int,
                sx as int,
                sy as int,
                k as nat,
            ),
            any == compared(known@, gw, gh, tx as int, ty as int, k as int),
            whole_to(known@, gw, gh, sx as int, sy as int, k as int),
        decreases 81 - k,
    {
        let dx: i64 = k % 9 - 4;
        let dy: i64 = k / 9 - 4;
        let (px, py): (i64, i64) = (tx as i64 + dx, ty as i64 + dy);
        let (qx, qy): (i64, i64) = (sx as i64 + dx, sy as i64 + dy);
        if !known_place(known, w, h, qx, qy) {
            proof {
                assert(in_patch(sx as int, sy as int, qx as int, qy as int));
            }
            return None;
        }
        if known_place(known, w, h, px, py) {
            proof {
                crate::grid::lemma_pixel_index(px as int, py as int, gw, gh);
                crate::grid::lemma_pixel_index(qx as int, qy as int, gw, gh);
                assert(0 <= py * w && 0 <= qy * w) by (nonlinear_arith)
                    requires
                        0 <= py,
                        0 <= qy,
                        0 <= w,
                ;
                assert(known_at(
                    known@,
                    gw,
                    gh,
                    tx as int + k as int % 9 - R,
                    ty as int + k as int / 9 - R,
                ));
            }
            let pi: usize = py as usize * w as usize + px as usize;
            let qi: usize = qy as usize * w as usize + qx as usize;
            ssd = ssd + square(rgba[4 * pi], rgba[4 * qi]) + square(
                rgba[4 * pi + 1],
                rgba[4 * qi + 1],
            ) + square(rgba[4 * pi + 2], rgba[4 * qi + 2]);
            any = true;
        }
        proof {
            assert(!known_at(known@, gw, gh, px as int, py as int) ==> (compared(
                known@,
                gw,
                gh,
                tx as int,
                ty as int,
                k + 1,
            ) ==> compared(known@, gw, gh, tx as int, ty as int, k as int)));
            if compared(known@, gw, gh, tx as int, ty as int, k as int) {
                let j = choose|j: int|
                    0 <= j < k && #[trigger] known_at(
                        known@,
                        gw,
                        gh,
                        tx as int + j % 9 - R,
                        ty as int + j / 9 - R,
                    );
                assert(compared(known@, gw, gh, tx as int, ty as int, k + 1));
            }
        }
        k = k + 1;
    }
    proof {
        lemma_compared(known@, gw, gh, tx as int, ty as int);
        lemma_whole(known@, gw, gh, sx as int, sy as int);
    }
    if any {
        Some(ssd)
    } else {
        None
    }
}

/// The best-matching whole patch within reach of the target, compared over
/// the target's known pixels only.
#[verifier::rlimit(40)]
pub fn best_exemplar(
    rgba: &[u8],
    known: &[bool],
    w: i32,
    h: i32,
    tx: i32,
    ty: i32,
) -> (best: Option<(i32, i32)>)
    requires
        0 <= tx < w,
        0 <= ty < h,
        known@.len() == w * h,
        rgba@.len() >= w * h * 4,
    ensures
        best matches Some((sx, sy)) ==> exemplar(
            rgba@,
            known@,
            w as int,
            h as int,
            (tx as int, ty as int),
            (sx as int, sy as int),
        ),
        best is None <==> forall|s: (int, int)|
            !(#[trigger] candidate(known@, w as int, h as int, (tx as int, ty as int), s)),
{
    let ghost (gw, gh) = (w as int, h as int);
    let ghost t = (tx as int, ty as int);
    let x0: i32 = if tx < SEARCH + R {
        R
    } else {
        tx - SEARCH
    };
    let y0: i32 = if ty < SEARCH + R {
        R
    } else {
        ty - SEARCH
    };
    let x1: i32 = if tx as i64 + 96 < w as i64 - 5 {
        tx + SEARCH
    } else {
        w - 1 - R
    };
    let y1: i32 = if ty as i64 + 96 < h as i64 - 5 {
        ty + SEARCH
    } else {
        h - 1 - R
    };
    proof {
        assert forall|s: (int, int)| #[trigger] candidate(known@, gw, gh, t, s) implies x0 <= s.0
            <= x1 && y0 <= s.1 <= y1 by {}
    }
    let mut best: Option<(i32, i32, i64)> = None;
    let mut sy: i32 = y0;
    while sy <= y1
        invariant
            gw == w,
            gh == h,
            t == (tx as int, ty as int),
            0 <= tx < w,
            0 <= ty < h,
            known@.len() == w * h,
            rgba@.len() >= w * h * 4,
            R <= x0,
            tx - SEARCH <= x0,
            x1 <= w - 1 - R,
            x1 <= tx + SEARCH,
            R <= y0 <= sy,
            ty - SEARCH <= y0,
            y1 <= h - 1 - R,
            y1 <= ty + SEARCH,
            sy <= y1 + 1 || sy == y0,
            forall|s: (int, int)| #[trigger]
                candidate(known@, gw, gh, t, s) ==> x0 <= s.0 <= x1 && y0 <= s.1 <= y1,
            best is None ==> forall|c: (int, int)|
                c.1 < sy ==> !(#[trigger] candidate(known@, gw, gh, t, c)),
            best matches Some((bx, by, d)) ==> {
                &&& candidate(known@, gw, gh, t, (bx as int, by as int))
                &&& by < sy
                &&& d == distance(rgba@, known@, gw, gh, t, (bx as int, by as int))
                &&& forall|c: (int, int)|
                    #![trigger candidate(known@, gw, gh, t, c)]
                    c.1 < sy && candidate(known@, gw, gh, t, c) ==> {
                        &&& d <= distance(rgba@, known@, gw, gh, t, c)
                        &&& before(c, (bx as int, by as int)) ==> d < distance(
                            rgba@,
                            known@,
                            gw,
                            gh,
                            t,
                            c,
                        )
                    }
            },
        decreases y1 - sy + 1,
    {
        let mut sx: i32 = x0;
        while sx <= x1
            invariant
                gw == w,
                gh == h,
                t == (tx as int, ty as int),
                0 <= tx < w,
                0 <= ty < h,
                known@.len() == w * h,
                rgba@.len() >= w * h * 4,
                R <= x0 <= sx,
                tx - SEARCH <= x0,
                x1 <= w - 1 - R,
                x1 <= tx + SEARCH,
                R <= y0 <= sy <= y1,
                ty - SEARCH <= y0,
                y1 <= h - 1 - R,
                y1 <= ty + SEARCH,
                sx <= x1 + 1 || sx == x0,
                forall|s: (int, int)| #[trigger]
                    candidate(known@, gw, gh, t, s) ==> x0 <= s.0 <= x1 && y0 <= s.1 <= y1,
                best is None ==> forall|c: (int, int)|
                    before(c, (sx as int, sy as int)) ==> !(#[trigger] candidate(
                        known@,
                        gw,
                        gh,
                        t,
                        c,
                    )),
                best matches Some((bx, by, d)) ==> {
                    &&& candidate(known@, gw, gh, t, (bx as int, by as int))
                    &&& before((bx as int, by as int), (sx as int, sy as int))
                    &&& d == distance(rgba@, known@, gw, gh, t, (bx as int, by as int))
                    &&& forall|c: (int, int)|
                        #![trigger candidate(known@, gw, gh, t, c)]
                        before(c, (sx as int, sy as int)) && candidate(known@, gw, gh, t, c) ==> {
                            &&& d <= distance(rgba@, known@, gw, gh, t, c)
                            &&& before(c, (bx as int, by as int)) ==> d < distance(
                                rgba@,
                                known@,
                                gw,
                                gh,
                                t,
                                c,
                            )
                        }
                },
            decreases x1 - sx + 1,
        {
            let score: Option<i64> = compare_patches(rgba, known, w, h, tx, ty, sx, sy);
            proof {
                assert(candidate(known@, gw, gh, t, (sx as int, sy as int)) == score is Some);
            }
            if let Some(d) = score {
                let better: bool = match best {
                    None => true,
                    Some((_, _, b)) => d < b,
                };
                if better {
                    best = Some((sx, sy, d));
                }
            }
            proof {
                assert forall|c: (int, int)|
                    before(c, (sx + 1, sy as int)) implies before(c, (sx as int, sy as int)) || c
                    == (sx as int, sy as int) by {}
            }
            sx = sx + 1;
        }
        sy = sy + 1;
    }
    match best {
        None => None,
        Some((bx, by, _)) => Some((bx, by)),
    }
}

/// Fill the unknown part of the patch at `(tx, ty)`, from its exemplar or, where
/// there is none, with what is already there: a result that is visibly
/// unfilled rather than an invented colour. Returns how many pixels became
/// source material.
#[verifier::rlimit(30)]
pub fn fill_patch(
    out: &mut Vec<u8>,
    known: &mut Vec<bool>,
    conf: &mut Vec<Scalar>,
    w: i32,
    h: i32,
    tx: i32,
    ty: i32,
    confidence: Scalar,
) -> (filled: usize)
    requires
        0 <= tx < w,
        0 <= ty < h,
        old(known)@.len() == w * h,
        old(conf)@.len() == w * h,
        old(out)@.len() >= w * h * 4,
        front(old(known)@, w as int, h as int, tx as int, ty as int),
    ensures
        fills_patch(
            (Stage { out: old(out)@, known: old(known)@, conf: old(conf)@ }),
            (Stage { out: final(out)@, known: final(known)@, conf: final(conf)@ }),
            w as int,
            h as int,
            (tx as int, ty as int),
            confidence,
        ),
        clear_count(final(known)@, final(known)@.len()) + filled == clear_count(
            old(known)@,
            old(known)@.len(),
        ),
        filled > 0,
{
    let ghost (gw, gh) = (w as int, h as int);
    let ghost t = (tx as int, ty as int);
    let ghost (out0, known0, conf0) = (out@, known@, conf@);
    let source: Option<(i32, i32)> = best_exemplar(out.as_slice(), known.as_slice(), w, h, tx, ty);
    let (found, sx, sy): (bool, i32, i32) = match source {
        Some((x, y)) => (true, x, y),
        None => (false, tx, ty),
    };
    let ghost s = (sx as int, sy as int);
    let ghost goal = if found {
        patched(out0, known0, gw, t, s)
    } else {
        out0
    };
    let total: usize = out.len();
    let cells: usize = known.len();
    let mut filled: usize = 0;
    let mut k: i64 = 0;
    proof {
        if found {
            assert(candidate(known0, gw, gh, t, s));
        }
    }
    while k < 81
        invariant
            0 <= k <= 81,
            gw == w,
            gh == h,
            t == (tx as int, ty as int),
            s == (sx as int, sy as int),
            0 <= tx < w,
            0 <= ty < h,
            known0.len() == w * h,
            conf0.len() == w * h,
            out0.len() >= w * h * 4,
            cells == known0.len(),
            total == out0.len(),
            known@.len() == known0.len(),
            conf@.len() == conf0.len(),
            out@.len() == out0.len(),
            found ==> whole(known0, gw, gh, s),
            goal == (if found {
                patched(out0, known0, gw, t, s)
            } else {
                out0
            }),
            forall|p: int|
                0 <= p < known0.len() ==> #[trigger] known@[p] == (known0[p] || placed(
                    gw,
                    t,
                    p,
                    k as int,
                )),
            forall|p: int|
                0 <= p < known0.len() ==> #[trigger] conf@[p] == (if found && !known0[p] && placed(
                    gw,
                    t,
                    p,
                    k as int,
                ) {
                    confidence
                } else {
                    conf0[p]
                }),
            forall|i: int|
                0 <= i < out0.len() ==> #[trigger] out@[i] == (if i / 4 < known0.len()
                    && !known0[i / 4] && placed(gw, t, i / 4, k as int) {
                    goal[i]
                } else {
                    out0[i]
                }),
            clear_count(known@, known@.len()) + filled == clear_count(known0, known0.len()),
            filled <= k,
            !known0[pixel(gw, tx as int, ty as int)],
            k > 40 ==> filled > 0,
        decreases 81 - k,
    {
        let dx: i64 = k % 9 - 4;
        let dy: i64 = k / 9 - 4;
        let (px, py): (i64, i64) = (tx as i64 + dx, ty as i64 + dy);
        let ghost (out1, known1, conf1) = (out@, known@, conf@);
        if px >= 0 && py >= 0 && px < w as i64 && py < h as i64 {
            let ghost p = pixel(gw, px as int, py as int);
            proof {
                crate::grid::lemma_pixel_index(px as int, py as int, gw, gh);
                assert(0 <= py * w) by (nonlinear_arith)
                    requires
                        0 <= py,
                        0 <= w,
                ;
                assert(!placed(gw, t, p, k as int));
                assert(placed(gw, t, p, k + 1));
            }
            let pi: usize = py as usize * w as usize + px as usize;
            if !known[pi] {
                if found {
                    let (qx, qy): (i64, i64) = (sx as i64 + dx, sy as i64 + dy);
                    proof {
                        assert(in_patch(s.0, s.1, qx as int, qy as int));
                        assert(known_at(known0, gw, gh, qx as int, qy as int));
                        crate::grid::lemma_pixel_index(qx as int, qy as int, gw, gh);
                        assert(0 <= qy * w) by (nonlinear_arith)
                            requires
                                0 <= qy,
                                0 <= w,
                        ;
                    }
                    let qi: usize = qy as usize * w as usize + qx as usize;
                    let texel: [u8; 4] = rgba_at(out.as_slice(), qi);
                    out[4 * pi] = texel[0];
                    out[4 * pi + 1] = texel[1];
                    out[4 * pi + 2] = texel[2];
                    out[4 * pi + 3] = texel[3];
                    conf[pi] = confidence;
                    proof {
                        assert forall|c: int| 0 <= c < 4 implies #[trigger] out@[4 * p + c]
                            == goal[4 * p + c] by {
                            assert((4 * p + c) / 4 == p && (4 * p + c) % 4 == c);
                            assert((4 * qi + c) / 4 == qi);
                            assert(out1[4 * qi + c] == out0[4 * qi + c]);
                            assert(texel@[c] == out1[4 * qi + c]);
                        }
                    }
                } else {
                    proof {
                        assert forall|c: int| 0 <= c < 4 implies #[trigger] out@[4 * p + c]
                            == goal[4 * p + c] by {
                            assert((4 * p + c) / 4 == p);
                        }
                    }
                }
                known[pi] = true;
                filled = filled + 1;
                proof {
                    lemma_clear_count_set(known1, p, known1.len());
                }
            }
            proof {
                assert forall|p1: int| 0 <= p1 < known0.len() implies placed(gw, t, p1, k + 1)
                    == (placed(gw, t, p1, k as int) || p1 == p) by {
                    lemma_placed_next(gw, gh, t, p1, k as int);
                }
                assert forall|i: int| 0 <= i < out0.len() implies #[trigger] out@[i] == (if i / 4
                    < known0.len() && !known0[i / 4] && placed(gw, t, i / 4, k + 1) {
                    goal[i]
                } else {
                    out0[i]
                }) by {
                    if i / 4 == p {
                        assert(i == 4 * p + i % 4);
                    } else {
                        assert(out@[i] == out1[i]);
                    }
                }
            }
        } else {
            proof {
                assert forall|p1: int| 0 <= p1 < known0.len() implies placed(gw, t, p1, k + 1)
                    == placed(gw, t, p1, k as int) by {
                    lemma_placed_next(gw, gh, t, p1, k as int);
                }
            }
        }
        k = k + 1;
    }
    proof {
        assert forall|p: int| 0 <= p < known0.len() implies placed(gw, t, p, 81) == in_patch(
            t.0,
            t.1,
            p % gw,
            p / gw,
        ) by {}
        assert(known@ =~= known_after(known0, gw, t));
        assert forall|i: int| 0 <= i < out0.len() implies out@[i] == goal[i] by {
            if found && i / 4 < known0.len() && !known0[i / 4] {
                assert(placed(gw, t, i / 4, 81) == in_patch(t.0, t.1, i / 4 % gw, i / 4 / gw));
            }
        }
        assert(out@ =~= goal);
        let a = Stage { out: out0, known: known0, conf: conf0 };
        let b = Stage { out: out@, known: known@, conf: conf@ };
        if found {
            assert(exemplar(a.out, a.known, gw, gh, t, s));
            assert(b.out == patched(a.out, a.known, gw, t, s));
        } else {
            assert(forall|c: (int, int)| !(#[trigger] candidate(a.known, gw, gh, t, c)));
            assert(b.out == a.out);
        }
        assert(b.known == known_after(a.known, gw, t));
        if found {
            assert(candidate(a.known, gw, gh, t, s));
        }
        assert forall|p: int| 0 <= p < conf0.len() implies conf@[p] == conf_after(
            a,
            gw,
            gh,
            t,
            confidence,
        )[p] by {
            assert(placed(gw, t, p, 81) == in_patch(t.0, t.1, p % gw, p / gw));
        }
        assert(b.conf =~= conf_after(a, gw, gh, t, confidence));
        assert(fills_patch(a, b, gw, gh, t, confidence));
    }
    filled
}

/// Whether pixel `p` is one of the first `k` places of the patch at `t`.
spec fn placed(w: int, t: (int, int), p: int, k: int) -> bool {
    in_patch(t.0, t.1, p % w, p / w) && (p / w - t.1 + R) * 9 + (p % w - t.0 + R) < k
}

proof fn lemma_placed_next(w: int, h: int, t: (int, int), p: int, k: int)
    requires
        0 < w,
        0 <= k < 81,
        0 <= p < w * h,
    ensures
        ({
            let x = t.0 + k % 9 - R;
            let y = t.1 + k / 9 - R;
            placed(w, t, p, k + 1) == (placed(w, t, p, k) || (on_image(w, h, x, y) && p == pixel(
                w,
                x,
                y,
            )))
        }),
{
    let x = t.0 + k % 9 - R;
    let y = t.1 + k / 9 - R;
    crate::grid::lemma_coordinates(p, w, h);
    if on_image(w, h, x, y) {
        crate::grid::lemma_pixel_index(x, y, w, h);
    }
    if placed(w, t, p, k + 1) && !placed(w, t, p, k) {
        assert(p / w - t.1 + R == k / 9 && p % w - t.0 + R == k % 9);
    }
}

/// Where no pixel is on the front, source material anywhere means source
/// material everywhere.
proof fn lemma_no_front(known: Seq<bool>, w: int, h: int, x0: int, y0: int, x: int, y: int)
    requires
        forall|i: int, j: int| !(#[trigger] front(known, w, h, i, j)),
        known_at(known, w, h, x0, y0),
        on_image(w, h, x, y),
    ensures
        known_at(known, w, h, x, y),
    decreases
            (if x < x0 {
                x0 - x
            } else {
                x - x0
            }) + (if y < y0 {
                y0 - y
            } else {
                y - y0
            }),
{
    if x < x0 {
        lemma_no_front(known, w, h, x0, y0, x + 1, y);
        assert(!front(known, w, h, x, y));
    } else if x > x0 {
        lemma_no_front(known, w, h, x0, y0, x - 1, y);
        assert(!front(known, w, h, x, y));
    } else if y < y0 {
        lemma_no_front(known, w, h, x0, y0, x, y + 1);
        assert(!front(known, w, h, x, y));
    } else if y > y0 {
        lemma_no_front(known, w, h, x0, y0, x, y - 1);
        assert(!front(known, w, h, x, y));
    }
}

/// A hole with anything around it has a front, so that a fill can always go
/// on until nothing is left of the hole.
pub proof fn a_hole_has_a_front(known: Seq<bool>, w: int, h: int, p: int, q: int)
    requires
        0 < w,
        known.len() == w * h,
        0 <= p < known.len(),
        0 <= q < known.len(),
        known[p],
        !known[q],
    ensures
        exists|x: int, y: int| #[trigger] front(known, w, h, x, y),
{
    crate::grid::lemma_coordinates(p, w, h);
    crate::grid::lemma_coordinates(q, w, h);
    if forall|x: int, y: int| !(#[trigger] front(known, w, h, x, y)) {
        assert(known_at(known, w, h, p % w, p / w));
        lemma_no_front(known, w, h, p % w, p / w, q % w, q / w);
    }
}

/// The source material of an image: what the selection leaves.
fn mark(coverage: &SelectionCoverage, threshold: u8) -> (marks: (Vec<bool>, Vec<Scalar>, usize))
    ensures
        coverage.sized(),
        marks.0@ == unselected(*coverage, threshold),
        marks.1@.len() == marks.0@.len(),
        forall|p: int|
            0 <= p < marks.1@.len() ==> #[trigger] marks.1@[p] == (if marks.0@[p] {
                crate::scalar::one()
            } else {
                crate::scalar::zero()
            }),
        marks.2 == clear_count(marks.0@, marks.0@.len()),
{
    let ghost goal = unselected(*coverage, threshold);
    let data: &[u8] = coverage.data();
    let n: usize = data.len();
    let mut known: Vec<bool> = Vec::new();
    let mut conf: Vec<Scalar> = Vec::new();
    let mut remaining: usize = 0;
    let mut p: usize = 0;
    while p < n
        invariant
            n == data@.len(),
            data@ == coverage.cells(),
            goal == unselected(*coverage, threshold),
            p <= n,
            known@ == goal.take(p as int),
            conf@.len() == p,
            forall|q: int|
                0 <= q < p ==> #[trigger] conf@[q] == (if known@[q] {
                    crate::scalar::one()
                } else {
                    crate::scalar::zero()
                }),
            remaining == clear_count(goal, p as nat),
            remaining <= p,
        decreases n - p,
    {
        if data[p] >= threshold {
            known.push(false);
            conf.push(Scalar { bits: ZERO });
            remaining = remaining + 1;
        } else {
            known.push(true);
            conf.push(Scalar { bits: ONE });
        }
        p = p + 1;
        proof {
            assert(known@ =~= goal.take(p as int));
        }
    }
    proof {
        assert(known@ =~= goal);
    }
    (known, conf, remaining)
}

/// Whether a selection leaves something to fill, and something to fill from.
pub open spec fn fillable(coverage: SelectionCoverage, threshold: u8) -> bool {
    &&& exists|p: int|
        0 <= p < coverage.cells().len() && #[trigger] coverage.cells()[p] >= threshold
    &&& exists|p: int|
        0 <= p < coverage.cells().len() && #[trigger] coverage.cells()[p] < threshold
}

/// The stage that a fill starts from: what is selected is the hole, and the rest
/// is trusted fully.
pub open spec fn first_stage(rgba: Seq<u8>, coverage: SelectionCoverage, threshold: u8) -> Stage {
    let known = unselected(coverage, threshold);
    Stage {
        out: rgba,
        known,
        conf: Seq::new(
            known.len(),
            |p: int|
                if known[p] {
                    crate::scalar::one()
                } else {
                    crate::scalar::zero()
                },
        ),
    }
}

/// Fill every pixel that the selection covers at or above `threshold`,
/// synthesising it from the rest of the image. `rgba` is canvas-extent
/// straight RGBA8. `None` where there is nothing to fill, or nothing to fill
/// from: pixels are never invented.
pub fn fill<
    M: Fn(&Vec<Scalar>, u32) -> Scalar,
    S: Fn(u8, u8, u8, u8, u8, u8) -> Scalar,
    E: Fn(Scalar, Scalar, i32, i32) -> Scalar,
    P: Fn(Scalar, Scalar) -> Scalar,
>(
    rgba: &[u8],
    width: u32,
    height: u32,
    coverage: &SelectionCoverage,
    threshold: u8,
    priorities: &Priorities<M, S, E, P>,
) -> (filled: Option<Vec<u8>>)
    requires
        coverage.columns() == width,
        coverage.rows() == height,
        width <= i32::MAX,
        height <= i32::MAX,
        priorities.total(),
    ensures
        filled is Some <==> rgba@.len() >= width * height * 4 && fillable(*coverage, threshold),
        filled matches Some(out) ==> {
            exists|stages: Seq<Stage>, last: Stage| #[trigger]
                priorities.fill_run(
                    stages,
                    first_stage(rgba@, *coverage, threshold),
                    last,
                    width as int,
                    height as int,
                ) && last.out == out@ && last.known == Seq::new(
                    (width * height) as nat,
                    |p: int| true,
                )
        },
{
    let ghost (gw, gh) = (width as int, height as int);
    let want: u128 = crate::ingest::canvas_bytes(width, height, 4);
    if (rgba.len() as u128) < want {
        return None;
    }
    let (w, h): (i32, i32) = (width as i32, height as i32);
    let (mut known, mut conf, mut remaining): (Vec<bool>, Vec<Scalar>, usize) = mark(
        coverage,
        threshold,
    );
    proof {
        lemma_clear_count_bound(known@, known@.len());
        assert forall|p: int| 0 <= p < known@.len() implies known@[p] == (coverage.cells()[p]
            < threshold) by {}
        if fillable(*coverage, threshold) {
            let p = choose|p: int|
                0 <= p < coverage.cells().len() && #[trigger] coverage.cells()[p] >= threshold;
            assert(!known@[p]);
            let q = choose|q: int|
                0 <= q < coverage.cells().len() && #[trigger] coverage.cells()[q] < threshold;
            assert(known@[q]);
        } else if remaining != 0 && remaining != known@.len() {
            let p = choose|p: int| 0 <= p < known@.len() && !(#[trigger] known@[p]);
            assert(coverage.cells()[p] >= threshold);
            let q = choose|q: int| 0 <= q < known@.len() && #[trigger] known@[q];
            assert(coverage.cells()[q] < threshold);
        }
    }
    if remaining == 0 || remaining == known.len() {
        return None;
    }
    let mut out: Vec<u8> = Vec::new();
    out.extend_from_slice(rgba);
    let ghost first = first_stage(rgba@, *coverage, threshold);
    let ghost mut stages = seq![first];
    let ghost q = choose|q: int| 0 <= q < known@.len() && #[trigger] known@[q];
    proof {
        assert(out@ =~= rgba@);
        assert(conf@ =~= first.conf);
    }
    while remaining > 0
        invariant
            gw == w,
            gh == h,
            0 < w,
            w == width,
            h == height,
            known@.len() == w * h,
            conf@.len() == w * h,
            out@.len() == rgba@.len(),
            out@.len() >= w * h * 4,
            remaining == clear_count(known@, known@.len()),
            0 <= q < known@.len(),
            known@[q],
            priorities.fill_run(
                stages,
                first,
                Stage { out: out@, known: known@, conf: conf@ },
                gw,
                gh,
            ),
            priorities.total(),
        decreases remaining,
    {
        let ghost a = Stage { out: out@, known: known@, conf: conf@ };
        proof {
            lemma_clear_count_bound(known@, known@.len());
            let p = choose|p: int| 0 <= p < known@.len() && !(#[trigger] known@[p]);
            a_hole_has_a_front(known@, gw, gh, q, p);
        }
        let next: Option<(i32, i32, Rating)> = priorities.best_front_patch(
            &out,
            &known,
            &conf,
            w,
            h,
        );
        if let Some((tx, ty, r)) = next {
            let n: usize = fill_patch(&mut out, &mut known, &mut conf, w, h, tx, ty, r.confidence);
            proof {
                let b = Stage { out: out@, known: known@, conf: conf@ };
                let t = (tx as int, ty as int);
                assert(priorities.foremost(a, gw, gh, t, r));
                assert(fills_patch(a, b, gw, gh, t, r.confidence));
                assert(priorities.advances(a, b, gw, gh));
                let longer = stages.push(b);
                assert forall|i: int|
                    #![trigger longer[i]]
                    0 < i < longer.len() implies priorities.advances(longer[i - 1], longer[i], gw, gh) by {
                    if i < stages.len() {
                        assert(longer[i] == stages[i] && longer[i - 1] == stages[i - 1]);
                    } else {
                        assert(longer[i - 1] == a);
                    }
                }
                stages = longer;
            }
            remaining = remaining - n;
        } else {
            proof {
                assert(false);
            }
            return None;
        }
    }
    proof {
        lemma_clear_count_bound(known@, known@.len());
        assert(known@ =~= Seq::new((width * height) as nat, |p: int| true));
    }
    Some(out)
}

/// A step keeps what is known, and every pixel after it was a pixel before it.
proof fn lemma_step(a: Stage, b: Stage, w: int, h: int, t: (int, int), confidence: Scalar)
    requires
        0 < w,
        a.known.len() == w * h,
        a.out.len() >= 4 * (w * h),
        fills_patch(a, b, w, h, t, confidence),
    ensures
        b.known.len() == a.known.len(),
        b.out.len() == a.out.len(),
        forall|p: int| 0 <= p < a.known.len() && a.known[p] ==> #[trigger] b.known[p],
        forall|i: int|
            0 <= i < a.out.len() && (i / 4 >= w * h || a.known[i / 4]) ==> #[trigger] b.out[i]
                == a.out[i],
        forall|p: int| 0 <= p < w * h ==> #[trigger] drawn_from(b.out, p, a.out, w * h),
{
    assert forall|p: int| 0 <= p < w * h implies #[trigger] drawn_from(b.out, p, a.out, w * h) by {
        crate::grid::lemma_coordinates(p, w, h);
        if b.out == a.out || a.known[p] || !in_patch(t.0, t.1, p % w, p / w) {
            assert forall|c: int| 0 <= c < 4 implies #[trigger] b.out[4 * p + c] == a.out[4 * p
                + c] by {
                assert((4 * p + c) / 4 == p);
            }
            assert(same_pixel(b.out, p, a.out, p));
        } else {
            let s = choose|s: (int, int)|
                #![trigger exemplar(a.out, a.known, w, h, t, s)]
                exemplar(a.out, a.known, w, h, t, s) && b.out == patched(a.out, a.known, w, t, s);
            let (qx, qy) = (p % w - t.0 + s.0, p / w - t.1 + s.1);
            let q = pixel(w, qx, qy);
            crate::grid::lemma_pixel_index(qx, qy, w, h);
            assert forall|c: int| 0 <= c < 4 implies #[trigger] b.out[4 * p + c] == a.out[4 * q
                + c] by {
                assert((4 * p + c) / 4 == p && (4 * p + c) % 4 == c);
            }
            assert(same_pixel(b.out, p, a.out, q));
        }
    }
}

/// Whether pixel `p` of one image has the bytes of pixel `q` of another.
pub open spec fn same_pixel(a: Seq<u8>, p: int, b: Seq<u8>, q: int) -> bool {
    forall|c: int| 0 <= c < 4 ==> #[trigger] a[4 * p + c] == b[4 * q + c]
}

/// Whether pixel `p` of one image is one of the first `n` pixels of another.
pub open spec fn drawn_from(a: Seq<u8>, p: int, b: Seq<u8>, n: int) -> bool {
    exists|q: int| 0 <= q < n && #[trigger] same_pixel(a, p, b, q)
}

proof fn lemma_run<
    M: Fn(&Vec<Scalar>, u32) -> Scalar,
    S: Fn(u8, u8, u8, u8, u8, u8) -> Scalar,
    E: Fn(Scalar, Scalar, i32, i32) -> Scalar,
    P: Fn(Scalar, Scalar) -> Scalar,
>(
    priorities: Priorities<M, S, E, P>,
    stages: Seq<Stage>,
    first: Stage,
    last: Stage,
    w: int,
    h: int,
    n: int,
)
    requires
        0 < w,
        first.known.len() == w * h,
        first.out.len() >= 4 * (w * h),
        priorities.fill_run(stages, first, last, w, h),
        0 <= n < stages.len(),
    ensures
        stages[n].known.len() == first.known.len(),
        stages[n].out.len() == first.out.len(),
        forall|p: int|
            0 <= p < first.known.len() && first.known[p] ==> #[trigger] stages[n].known[p],
        forall|i: int|
            0 <= i < first.out.len() && (i / 4 >= w * h || first.known[i / 4]) ==> #[trigger]
                stages[n].out[i] == first.out[i],
        forall|p: int|
            0 <= p < w * h ==> #[trigger] drawn_from(stages[n].out, p, first.out, w * h),
    decreases n,
{
    if n == 0 {
        assert forall|p: int| 0 <= p < w * h implies #[trigger] drawn_from(
            stages[n].out,
            p,
            first.out,
            w * h,
        ) by {
            assert(same_pixel(stages[n].out, p, first.out, p));
        }
    } else {
        lemma_run(priorities, stages, first, last, w, h, n - 1);
        let (a, b) = (stages[n - 1], stages[n]);
        assert(priorities.advances(a, b, w, h));
        let (t, r) = choose|t: (int, int), r: Rating| #[trigger]
            priorities.foremost(a, w, h, t, r) && fills_patch(a, b, w, h, t, r.confidence);
        lemma_step(a, b, w, h, t, r.confidence);
        assert forall|i: int|
            0 <= i < first.out.len() && (i / 4 >= w * h || first.known[i / 4]) implies #[trigger]
        stages[n].out[i] == first.out[i] by {
            assert(b.out[i] == a.out[i]);
        }
        assert forall|p: int| 0 <= p < w * h implies #[trigger] drawn_from(
            stages[n].out,
            p,
            first.out,
            w * h,
        ) by {
            assert(drawn_from(b.out, p, a.out, w * h));
            let m = choose|m: int| 0 <= m < w * h && #[trigger] same_pixel(b.out, p, a.out, m);
            assert(drawn_from(a.out, m, first.out, w * h));
            let q = choose|q: int| 0 <= q < w * h && #[trigger] same_pixel(a.out, m, first.out, q);
            assert forall|c: int| 0 <= c < 4 implies #[trigger] b.out[4 * p + c] == first.out[4 * q
                + c] by {
                assert(a.out[4 * m + c] == first.out[4 * q + c]);
            }
            assert(same_pixel(b.out, p, first.out, q));
        }
    }
}

/// A fill never touches a byte outside of the hole.
pub proof fn a_fill_leaves_the_rest_alone<
    M: Fn(&Vec<Scalar>, u32) -> Scalar,
    S: Fn(u8, u8, u8, u8, u8, u8) -> Scalar,
    E: Fn(Scalar, Scalar, i32, i32) -> Scalar,
    P: Fn(Scalar, Scalar) -> Scalar,
>(
    priorities: Priorities<M, S, E, P>,
    stages: Seq<Stage>,
    first: Stage,
    last: Stage,
    w: int,
    h: int,
    i: int,
)
    requires
        0 < w,
        first.known.len() == w * h,
        first.out.len() >= 4 * (w * h),
        priorities.fill_run(stages, first, last, w, h),
        0 <= i < first.out.len(),
        i / 4 >= w * h || first.known[i / 4],
    ensures
        last.out[i] == first.out[i],
{
    lemma_run(priorities, stages, first, last, w, h, stages.len() - 1);
    assert(stages[stages.len() - 1].out[i] == first.out[i]);
}

/// A fill synthesises rather than averages: every pixel that it leaves is a
/// pixel of the image it began with.
pub proof fn a_fill_is_made_of_real_pixels<
    M: Fn(&Vec<Scalar>, u32) -> Scalar,
    S: Fn(u8, u8, u8, u8, u8, u8) -> Scalar,
    E: Fn(Scalar, Scalar, i32, i32) -> Scalar,
    P: Fn(Scalar, Scalar) -> Scalar,
>(
    priorities: Priorities<M, S, E, P>,
    stages: Seq<Stage>,
    first: Stage,
    last: Stage,
    w: int,
    h: int,
    p: int,
)
    requires
        0 < w,
        first.known.len() == w * h,
        first.out.len() >= 4 * (w * h),
        priorities.fill_run(stages, first, last, w, h),
        0 <= p < w * h,
    ensures
        last.out.len() == first.out.len(),
        drawn_from(last.out, p, first.out, w * h),
{
    lemma_run(priorities, stages, first, last, w, h, stages.len() - 1);
    assert(drawn_from(stages[stages.len() - 1].out, p, first.out, w * h));
}

/// Whether a place has a patch in reach that is source material throughout.
pub open spec fn supplied(known: Seq<bool>, w: int, h: int, t: (int, int)) -> bool {
    exists|s: (int, int)|
        #![trigger whole(known, w, h, s)]
        t.0 - SEARCH <= s.0 <= t.0 + SEARCH && t.1 - SEARCH <= s.1 <= t.1 + SEARCH && whole(
            known,
            w,
            h,
            s,
        )
}

/// Whether pixel `p` of an image is a pixel that was source material at a stage.
pub open spec fn drawn_from_known(out: Seq<u8>, p: int, first: Stage) -> bool {
    exists|q: int|
        0 <= q < first.known.len() && first.known[q] && #[trigger] same_pixel(
            out,
            p,
            first.out,
            q,
        )
}

proof fn lemma_supplied_front(first: Seq<bool>, known: Seq<bool>, w: int, h: int, t: (int, int))
    requires
        0 < w,
        first.len() == w * h,
        known.len() == w * h,
        forall|p: int| 0 <= p < w * h && first[p] ==> #[trigger] known[p],
        supplied(first, w, h, t),
        front(known, w, h, t.0, t.1),
    ensures
        exists|s: (int, int)| #[trigger] candidate(known, w, h, t, s),
{
    let s = choose|s: (int, int)|
        #![trigger whole(first, w, h, s)]
        t.0 - SEARCH <= s.0 <= t.0 + SEARCH && t.1 - SEARCH <= s.1 <= t.1 + SEARCH && whole(
            first,
            w,
            h,
            s,
        );
    assert forall|x: int, y: int|
        #![trigger known_at(known, w, h, x, y)]
        in_patch(s.0, s.1, x, y) implies known_at(known, w, h, x, y) by {
        assert(known_at(first, w, h, x, y));
        crate::grid::lemma_pixel_index(x, y, w, h);
    }
    assert(candidate(known, w, h, t, s));
}

proof fn lemma_supplied_step(
    first: Stage,
    a: Stage,
    b: Stage,
    w: int,
    h: int,
    t: (int, int),
    confidence: Scalar,
)
    requires
        0 < w,
        first.known.len() == w * h,
        a.known.len() == w * h,
        a.out.len() >= 4 * (w * h),
        fills_patch(a, b, w, h, t, confidence),
        exists|s: (int, int)| #[trigger] candidate(a.known, w, h, t, s),
        forall|p: int|
            0 <= p < w * h && a.known[p] ==> #[trigger] drawn_from_known(a.out, p, first),
    ensures
        forall|p: int|
            0 <= p < w * h && b.known[p] ==> #[trigger] drawn_from_known(b.out, p, first),
{
    let s = choose|s: (int, int)|
        #![trigger exemplar(a.out, a.known, w, h, t, s)]
        exemplar(a.out, a.known, w, h, t, s) && b.out == patched(a.out, a.known, w, t, s);
    assert(exemplar(a.out, a.known, w, h, t, s));
    assert forall|p: int| 0 <= p < w * h && b.known[p] implies #[trigger] drawn_from_known(
        b.out,
        p,
        first,
    ) by {
        crate::grid::lemma_coordinates(p, w, h);
        let m = if a.known[p] {
            p
        } else {
            let (mx, my) = (p % w - t.0 + s.0, p / w - t.1 + s.1);
            assert(in_patch(s.0, s.1, mx, my));
            assert(known_at(a.known, w, h, mx, my));
            crate::grid::lemma_pixel_index(mx, my, w, h);
            pixel(w, mx, my)
        };
        assert(a.known[m]);
        assert(drawn_from_known(a.out, m, first));
        let q = choose|q: int|
            0 <= q < first.known.len() && first.known[q] && #[trigger] same_pixel(
                a.out,
                m,
                first.out,
                q,
            );
        assert forall|c: int| 0 <= c < 4 implies #[trigger] b.out[4 * p + c] == first.out[4 * q
            + c] by {
            assert((4 * p + c) / 4 == p && (4 * p + c) % 4 == c);
            assert(a.out[4 * m + c] == first.out[4 * q + c]);
        }
        assert(same_pixel(b.out, p, first.out, q));
    }
}

proof fn lemma_supplied_run<
    M: Fn(&Vec<Scalar>, u32) -> Scalar,
    S: Fn(u8, u8, u8, u8, u8, u8) -> Scalar,
    E: Fn(Scalar, Scalar, i32, i32) -> Scalar,
    P: Fn(Scalar, Scalar) -> Scalar,
>(
    priorities: Priorities<M, S, E, P>,
    stages: Seq<Stage>,
    first: Stage,
    last: Stage,
    w: int,
    h: int,
    n: int,
)
    requires
        0 < w,
        first.known.len() == w * h,
        first.out.len() >= 4 * (w * h),
        priorities.fill_run(stages, first, last, w, h),
        0 <= n < stages.len(),
        forall|x: int, y: int|
            #![trigger known_at(first.known, w, h, x, y)]
            on_image(w, h, x, y) && !known_at(first.known, w, h, x, y) ==> supplied(
                first.known,
                w,
                h,
                (x, y),
            ),
    ensures
        forall|p: int|
            0 <= p < w * h && stages[n].known[p] ==> #[trigger] drawn_from_known(
                stages[n].out,
                p,
                first,
            ),
    decreases n,
{
    if n == 0 {
        assert forall|p: int| 0 <= p < w * h && stages[n].known[p] implies #[trigger]
        drawn_from_known(stages[n].out, p, first) by {
            assert(same_pixel(stages[n].out, p, first.out, p));
        }
    } else {
        lemma_supplied_run(priorities, stages, first, last, w, h, n - 1);
        lemma_run(priorities, stages, first, last, w, h, n - 1);
        let (a, b) = (stages[n - 1], stages[n]);
        assert(priorities.advances(a, b, w, h));
        let (t, r) = choose|t: (int, int), r: Rating| #[trigger]
            priorities.foremost(a, w, h, t, r) && fills_patch(a, b, w, h, t, r.confidence);
        assert(front(a.known, w, h, t.0, t.1));
        crate::grid::lemma_pixel_index(t.0, t.1, w, h);
        assert(!a.known[pixel(w, t.0, t.1)]);
        assert(!known_at(first.known, w, h, t.0, t.1));
        lemma_supplied_front(first.known, a.known, w, h, t);
        lemma_supplied_step(first, a, b, w, h, t, r.confidence);
    }
}

/// A hole is filled from outside of it: where each of its pixels has a patch in
/// reach that lies wholly outside, every pixel of the fill is one that was
/// outside of the hole when the fill began.
pub proof fn a_fill_comes_from_outside_the_hole<
    M: Fn(&Vec<Scalar>, u32) -> Scalar,
    S: Fn(u8, u8, u8, u8, u8, u8) -> Scalar,
    E: Fn(Scalar, Scalar, i32, i32) -> Scalar,
    P: Fn(Scalar, Scalar) -> Scalar,
>(
    priorities: Priorities<M, S, E, P>,
    stages: Seq<Stage>,
    first: Stage,
    last: Stage,
    w: int,
    h: int,
    p: int,
)
    requires
        0 < w,
        first.known.len() == w * h,
        first.out.len() >= 4 * (w * h),
        priorities.fill_run(stages, first, last, w, h),
        forall|x: int, y: int|
            #![trigger known_at(first.known, w, h, x, y)]
            on_image(w, h, x, y) && !known_at(first.known, w, h, x, y) ==> supplied(
                first.known,
                w,
                h,
                (x, y),
            ),
        0 <= p < w * h,
        last.known[p],
    ensures
        drawn_from_known(last.out, p, first),
{
    lemma_supplied_run(priorities, stages, first, last, w, h, stages.len() - 1);
    assert(drawn_from_known(stages[stages.len() - 1].out, p, first));
}

/// Two pixels differ by their colours, all three of them: not at all exactly where
/// red, green and blue agree, alike in either direction, and more the further
/// apart any of the three is.
pub proof fn pixels_differ_by_all_three_colours(rgba: Seq<u8>, p: int, q: int, r: int)
    ensures
        pixel_difference(rgba, p, q) >= 0,
        pixel_difference(rgba, p, q) == pixel_difference(rgba, q, p),
        pixel_difference(rgba, p, q) == 0 <==> rgba[4 * p] == rgba[4 * q] && rgba[4 * p + 1]
            == rgba[4 * q + 1] && rgba[4 * p + 2] == rgba[4 * q + 2],
        (forall|c: int|
            0 <= c < 3 ==> {
                let near = #[trigger] rgba[4 * p + c] - rgba[4 * q + c];
                let far = rgba[4 * p + c] - rgba[4 * r + c];
                -far <= near <= far || far <= near <= -far
            }) ==> {
            &&& pixel_difference(rgba, p, q) <= pixel_difference(rgba, p, r)
            &&& (exists|c: int|
                0 <= c < 3 && {
                    let near = #[trigger] rgba[4 * p + c] - rgba[4 * q + c];
                    let far = rgba[4 * p + c] - rgba[4 * r + c];
                    near != far && near != -far
                }) ==> pixel_difference(rgba, p, q) < pixel_difference(rgba, p, r)
        },
{
    let d = |c: int| rgba[4 * p + c] - rgba[4 * q + c];
    let e = |c: int| rgba[4 * p + c] - rgba[4 * r + c];
    assert(rgba[4 * p + 0] == rgba[4 * p]);
    assert forall|c: int| #![trigger rgba[4 * p + c]] 0 <= c < 3 implies {
        &&& d(c) * d(c) >= 0
        &&& d(c) * d(c) == 0 <==> d(c) == 0
        &&& d(c) * d(c) == (-d(c)) * (-d(c))
        &&& (-e(c) <= d(c) <= e(c) || e(c) <= d(c) <= -e(c)) ==> d(c) * d(c) <= e(c) * e(c)
        &&& (-e(c) <= d(c) <= e(c) || e(c) <= d(c) <= -e(c)) && d(c) != e(c) && d(c) != -e(c)
            ==> d(c) * d(c) < e(c) * e(c)
    } by {
        lemma_squares(d(c), e(c));
    }
    assert(rgba[4 * p + 1] == rgba[4 * p + 1] && rgba[4 * p + 2] == rgba[4 * p + 2]);
}

proof fn lemma_squares(d: int, e: int)
    ensures
        d * d >= 0,
        d * d == 0 <==> d == 0,
        d * d == (-d) * (-d),
        (-e <= d <= e || e <= d <= -e) ==> d * d <= e * e,
        (-e <= d <= e || e <= d <= -e) && d != e && d != -e ==> d * d < e * e,
{
    assert(d * d >= 0) by (nonlinear_arith);
    assert(d * d == (-d) * (-d)) by (nonlinear_arith);
    assert(d * d == 0 <==> d == 0) by (nonlinear_arith);
    if -e <= d <= e || e <= d <= -e {
        assert(d * d <= e * e) by (nonlinear_arith)
            requires
                -e <= d <= e || e <= d <= -e,
        ;
        if d != e && d != -e {
            assert(d * d < e * e) by (nonlinear_arith)
                requires
                    -e < d < e || e < d < -e,
            ;
        }
    }
}

/// Whether two pixels have the same red, green and blue.
pub open spec fn same_colour(rgba: Seq<u8>, p: int, q: int) -> bool {
    rgba[4 * p] == rgba[4 * q] && rgba[4 * p + 1] == rgba[4 * q + 1] && rgba[4 * p + 2] == rgba[4 * q
        + 2]
}

/// Whether the patch at `s` has the colours of everything that is known within
/// four pixels of `t`, place for place.
pub open spec fn agrees(
    rgba: Seq<u8>,
    known: Seq<bool>,
    w: int,
    h: int,
    t: (int, int),
    s: (int, int),
) -> bool {
    forall|dx: int, dy: int|
        #![trigger same_colour(rgba, (t.1 + dy) * w + (t.0 + dx), (s.1 + dy) * w + (s.0 + dx))]
        -4 <= dx <= 4 && -4 <= dy <= 4 && 0 <= t.0 + dx < w && 0 <= t.1 + dy < h && known[(t.1 + dy)
            * w + (t.0 + dx)] ==> same_colour(
            rgba,
            (t.1 + dy) * w + (t.0 + dx),
            (s.1 + dy) * w + (s.0 + dx),
        )
}

proof fn lemma_difference(
    rgba: Seq<u8>,
    known: Seq<bool>,
    w: int,
    h: int,
    t: (int, int),
    s: (int, int),
    k: nat,
)
    requires
        k <= 81,
    ensures
        difference(rgba, known, w, h, t.0, t.1, s.0, s.1, k) >= 0,
        difference(rgba, known, w, h, t.0, t.1, s.0, s.1, k) == 0 <==> forall|j: int|
            0 <= j < k && #[trigger] known_at(known, w, h, t.0 + j % 9 - R, t.1 + j / 9 - R)
                ==> same_colour(
                rgba,
                pixel(w, t.0 + (j % 9 - R), t.1 + (j / 9 - R)),
                pixel(w, s.0 + (j % 9 - R), s.1 + (j / 9 - R)),
            ),
    decreases k,
{
    if k > 0 {
        lemma_difference(rgba, known, w, h, t, s, (k - 1) as nat);
        let j = k - 1;
        let (dx, dy) = (j % 9 - R, j / 9 - R);
        let (p, q) = (pixel(w, t.0 + dx, t.1 + dy), pixel(w, s.0 + dx, s.1 + dy));
        pixels_differ_by_all_three_colours(rgba, p, q, q);
        assert(known_at(known, w, h, t.0 + j % 9 - R, t.1 + j / 9 - R) == known_at(
            known,
            w,
            h,
            t.0 + dx,
            t.1 + dy,
        ));
        let now = difference(rgba, known, w, h, t.0, t.1, s.0, s.1, k);
        let before = difference(rgba, known, w, h, t.0, t.1, s.0, s.1, (k - 1) as nat);
        if now == 0 {
            assert(before == 0);
        }
        if forall|j: int|
            0 <= j < k && #[trigger] known_at(known, w, h, t.0 + j % 9 - R, t.1 + j / 9 - R)
                ==> same_colour(
                rgba,
                pixel(w, t.0 + (j % 9 - R), t.1 + (j / 9 - R)),
                pixel(w, s.0 + (j % 9 - R), s.1 + (j / 9 - R)),
            ) {
            assert(before == 0);
            assert(now == 0);
        }
    }
}

/// A patch is at distance zero exactly where it agrees with the target in red,
/// green and blue at every known place of the patch; no distance is below that.
pub proof fn a_distance_of_zero_is_agreement(
    rgba: Seq<u8>,
    known: Seq<bool>,
    w: int,
    h: int,
    t: (int, int),
    s: (int, int),
)
    ensures
        distance(rgba, known, w, h, t, s) >= 0,
        distance(rgba, known, w, h, t, s) == 0 <==> agrees(rgba, known, w, h, t, s),
{
    lemma_difference(rgba, known, w, h, t, s, 81);
    if distance(rgba, known, w, h, t, s) == 0 {
        assert forall|dx: int, dy: int|
            #![trigger same_colour(rgba, (t.1 + dy) * w + (t.0 + dx), (s.1 + dy) * w + (s.0 + dx))]
            -4 <= dx <= 4 && -4 <= dy <= 4 && 0 <= t.0 + dx < w && 0 <= t.1 + dy < h && known[(t.1
                + dy) * w + (t.0 + dx)] implies same_colour(
            rgba,
            (t.1 + dy) * w + (t.0 + dx),
            (s.1 + dy) * w + (s.0 + dx),
        ) by {
            let j = (dy + 4) * 9 + (dx + 4);
            assert(j % 9 == dx + 4 && j / 9 == dy + 4);
            assert(known_at(known, w, h, t.0 + j % 9 - R, t.1 + j / 9 - R));
        }
    }
    if agrees(rgba, known, w, h, t, s) {
        assert forall|j: int|
            0 <= j < 81 && #[trigger] known_at(
                known,
                w,
                h,
                t.0 + j % 9 - R,
                t.1 + j / 9 - R,
            ) implies same_colour(
            rgba,
            pixel(w, t.0 + (j % 9 - R), t.1 + (j / 9 - R)),
            pixel(w, s.0 + (j % 9 - R), s.1 + (j / 9 - R)),
        ) by {
            let (dx, dy) = (j % 9 - R, j / 9 - R);
            assert(same_colour(
                rgba,
                (t.1 + dy) * w + (t.0 + dx),
                (s.1 + dy) * w + (s.0 + dx),
            ));
        }
    }
}

/// Whether the nine by nine pixels round `s` lie on the image and are all known,
/// within 96 pixels of `t` in either direction.
pub open spec fn in_supply(known: Seq<bool>, w: int, h: int, t: (int, int), s: (int, int)) -> bool {
    &&& -96 <= s.0 - t.0 <= 96
    &&& -96 <= s.1 - t.1 <= 96
    &&& 4 <= s.0 < w - 4
    &&& 4 <= s.1 < h - 4
    &&& forall|dx: int, dy: int|
        #![trigger known[(s.1 + dy) * w + (s.0 + dx)]]
        -4 <= dx <= 4 && -4 <= dy <= 4 ==> known[(s.1 + dy) * w + (s.0 + dx)]
}

proof fn lemma_in_supply(known: Seq<bool>, w: int, h: int, t: (int, int), s: (int, int))
    requires
        0 <= t.0 < w,
        0 <= t.1 < h,
    ensures
        candidate(known, w, h, t, s) ==> in_supply(known, w, h, t, s),
        in_supply(known, w, h, t, s) && comparable(known, w, h, t) ==> candidate(known, w, h, t, s),
{
    if candidate(known, w, h, t, s) {
        assert forall|dx: int, dy: int|
            #![trigger known[(s.1 + dy) * w + (s.0 + dx)]]
            -4 <= dx <= 4 && -4 <= dy <= 4 implies known[(s.1 + dy) * w + (s.0 + dx)] by {
            assert(in_patch(s.0, s.1, s.0 + dx, s.1 + dy));
            assert(known_at(known, w, h, s.0 + dx, s.1 + dy));
        }
    }
    if in_supply(known, w, h, t, s) && comparable(known, w, h, t) {
        assert forall|x: int, y: int|
            #![trigger known_at(known, w, h, x, y)]
            in_patch(s.0, s.1, x, y) implies known_at(known, w, h, x, y) by {
            let (dx, dy) = (x - s.0, y - s.1);
            assert(known[(s.1 + dy) * w + (s.0 + dx)]);
        }
    }
}

/// Filling a patch copies the best match whole: the pixels of the hole within four
/// of the target come from one patch of known pixels in reach, each from the same
/// place of it, and no patch in reach is closer. Where some patch in reach has
/// exactly the colours that are known round the target, so has the one that is
/// copied. Every other byte stays, and the target's patch is known from now on.
pub proof fn a_patch_is_copied_from_its_best_match(
    a: Stage,
    b: Stage,
    w: int,
    h: int,
    t: (int, int),
    confidence: Scalar,
) -> (s: (int, int))
    requires
        0 < w,
        a.known.len() == w * h,
        a.out.len() >= 4 * (w * h),
        fills_patch(a, b, w, h, t, confidence),
        exists|c: (int, int)| #[trigger] in_supply(a.known, w, h, t, c),
    ensures
        in_supply(a.known, w, h, t, s),
        forall|c: (int, int)| #[trigger]
            in_supply(a.known, w, h, t, c) ==> distance(a.out, a.known, w, h, t, s) <= distance(
                a.out,
                a.known,
                w,
                h,
                t,
                c,
            ),
        (exists|c: (int, int)| #[trigger]
            in_supply(a.known, w, h, t, c) && agrees(a.out, a.known, w, h, t, c)) ==> agrees(
            a.out,
            a.known,
            w,
            h,
            t,
            s,
        ),
        forall|x: int, y: int, k: int|
            #![trigger b.out[4 * (y * w + x) + k]]
            0 <= x < w && 0 <= y < h && 0 <= k < 4 ==> b.out[4 * (y * w + x) + k] == (if -4 <= x
                - t.0 <= 4 && -4 <= y - t.1 <= 4 && !a.known[y * w + x] {
                a.out[4 * ((s.1 + (y - t.1)) * w + (s.0 + (x - t.0))) + k]
            } else {
                a.out[4 * (y * w + x) + k]
            }),
        forall|x: int, y: int|
            #![trigger b.known[y * w + x]]
            0 <= x < w && 0 <= y < h ==> b.known[y * w + x] == (a.known[y * w + x] || (-4 <= x - t.0
                <= 4 && -4 <= y - t.1 <= 4)),
{
    let (tx, ty) = t;
    assert(comparable(a.known, w, h, t)) by {
        assert(front(a.known, w, h, tx, ty));
        if known_at(a.known, w, h, tx + 1, ty) {
            assert(in_patch(tx, ty, tx + 1, ty));
        } else if known_at(a.known, w, h, tx - 1, ty) {
            assert(in_patch(tx, ty, tx - 1, ty));
        } else if known_at(a.known, w, h, tx, ty + 1) {
            assert(in_patch(tx, ty, tx, ty + 1));
        } else {
            assert(known_at(a.known, w, h, tx, ty - 1));
            assert(in_patch(tx, ty, tx, ty - 1));
        }
    }
    let c0 = choose|c: (int, int)| #[trigger] in_supply(a.known, w, h, t, c);
    lemma_in_supply(a.known, w, h, t, c0);
    assert(candidate(a.known, w, h, t, c0));
    let s = choose|s: (int, int)|
        #![trigger exemplar(a.out, a.known, w, h, t, s)]
        exemplar(a.out, a.known, w, h, t, s) && b.out == patched(a.out, a.known, w, t, s);
    assert(exemplar(a.out, a.known, w, h, t, s));
    lemma_in_supply(a.known, w, h, t, s);
    assert forall|c: (int, int)| #[trigger] in_supply(a.known, w, h, t, c) implies distance(
        a.out,
        a.known,
        w,
        h,
        t,
        s,
    ) <= distance(a.out, a.known, w, h, t, c) by {
        lemma_in_supply(a.known, w, h, t, c);
    }
    a_distance_of_zero_is_agreement(a.out, a.known, w, h, t, s);
    if exists|c: (int, int)| #[trigger]
        in_supply(a.known, w, h, t, c) && agrees(a.out, a.known, w, h, t, c) {
        let c = choose|c: (int, int)| #[trigger]
            in_supply(a.known, w, h, t, c) && agrees(a.out, a.known, w, h, t, c);
        a_distance_of_zero_is_agreement(a.out, a.known, w, h, t, c);
    }
    assert forall|x: int, y: int, k: int|
        #![trigger b.out[4 * (y * w + x) + k]]
        0 <= x < w && 0 <= y < h && 0 <= k < 4 implies b.out[4 * (y * w + x) + k] == (if -4 <= x
        - t.0 <= 4 && -4 <= y - t.1 <= 4 && !a.known[y * w + x] {
        a.out[4 * ((s.1 + (y - t.1)) * w + (s.0 + (x - t.0))) + k]
    } else {
        a.out[4 * (y * w + x) + k]
    }) by {
        let p = y * w + x;
        crate::grid::lemma_pixel_index(x, y, w, h);
        crate::grid::lemma_split(4, p, k);
        assert(pixel(w, x - tx + s.0, y - ty + s.1) == (s.1 + (y - t.1)) * w + (s.0 + (x - t.0)));
    }
    assert forall|x: int, y: int|
        #![trigger b.known[y * w + x]]
        0 <= x < w && 0 <= y < h implies b.known[y * w + x] == (a.known[y * w + x] || (-4 <= x - t.0
        <= 4 && -4 <= y - t.1 <= 4)) by {
        crate::grid::lemma_pixel_index(x, y, w, h);
    }
    s
}

/// Of patches that match equally well the first in reading order is copied.
pub proof fn ties_go_to_the_first_in_reading_order(
    rgba: Seq<u8>,
    known: Seq<bool>,
    w: int,
    h: int,
    t: (int, int),
    s: (int, int),
    c: (int, int),
)
    requires
        0 <= t.0 < w,
        0 <= t.1 < h,
        exemplar(rgba, known, w, h, t, s),
        in_supply(known, w, h, t, c),
        distance(rgba, known, w, h, t, c) == distance(rgba, known, w, h, t, s),
    ensures
        s.1 < c.1 || (s.1 == c.1 && s.0 <= c.0),
{
    lemma_in_supply(known, w, h, t, c);
    assert(candidate(known, w, h, t, s));
}

/// The front is where the hole meets what is known: an unknown pixel is on it
/// exactly where a known one lies right beside, above or below it.
pub proof fn the_front_is_where_the_hole_meets_the_known(
    known: Seq<bool>,
    w: int,
    h: int,
    x: int,
    y: int,
)
    requires
        0 <= x < w,
        0 <= y < h,
    ensures
        front(known, w, h, x, y) <==> !known[y * w + x] && exists|u: int, v: int|
            0 <= u < w && 0 <= v < h && ((u == x && (v == y - 1 || v == y + 1)) || (v == y && (u == x
                - 1 || u == x + 1))) && #[trigger] known[v * w + u],
{
    if front(known, w, h, x, y) {
        if known_at(known, w, h, x + 1, y) {
            assert(known[y * w + (x + 1)]);
        } else if known_at(known, w, h, x - 1, y) {
            assert(known[y * w + (x - 1)]);
        } else if known_at(known, w, h, x, y + 1) {
            assert(known[(y + 1) * w + x]);
        } else {
            assert(known[(y - 1) * w + x]);
        }
    }
    if !known[y * w + x] && (exists|u: int, v: int|
        0 <= u < w && 0 <= v < h && ((u == x && (v == y - 1 || v == y + 1)) || (v == y && (u == x
            - 1 || u == x + 1))) && #[trigger] known[v * w + u]) {
        let (u, v) = choose|u: int, v: int|
            0 <= u < w && 0 <= v < h && ((u == x && (v == y - 1 || v == y + 1)) || (v == y && (u == x
                - 1 || u == x + 1))) && #[trigger] known[v * w + u];
        assert(known_at(known, w, h, u, v));
    }
}

/// The normal of the front points out of the hole: to the right where the hole is
/// on the left alone, down where it is above alone, and nowhere between equals.
pub proof fn a_normal_points_out_of_the_hole(known: Seq<bool>, w: int, h: int, x: int, y: int)
    requires
        0 < x < w - 1,
        0 < y < h - 1,
    ensures
        ({
            let n = normal(known, w, h, x, y);
            let (l, r) = (known[y * w + (x - 1)], known[y * w + (x + 1)]);
            let (u, d) = (known[(y - 1) * w + x], known[(y + 1) * w + x]);
            &&& r && !l ==> n.0 == 1
            &&& l && !r ==> n.0 == -1
            &&& l == r ==> n.0 == 0
            &&& d && !u ==> n.1 == 1
            &&& u && !d ==> n.1 == -1
            &&& u == d ==> n.1 == 0
        }),
{
}

/// The edge of a place is measured across it, from the pixel on its left to the one
/// on its right and from the one above to the one below, by their colours.
pub proof fn an_edge_is_measured_across_its_place<
    M: Fn(&Vec<Scalar>, u32) -> Scalar,
    S: Fn(u8, u8, u8, u8, u8, u8) -> Scalar,
    E: Fn(Scalar, Scalar, i32, i32) -> Scalar,
    P: Fn(Scalar, Scalar) -> Scalar,
>(
    priorities: Priorities<M, S, E, P>,
    rgba: Seq<u8>,
    known: Seq<bool>,
    w: int,
    h: int,
    x: int,
    y: int,
    d: Scalar,
) -> (g: (Scalar, Scalar))
    requires
        priorities.leads(rgba, known, w, h, x, y, d),
        0 < x < w - 1,
        0 < y < h - 1,
        ({
            let n = normal(known, w, h, x, y);
            n.0 != 0 || n.1 != 0
        }),
    ensures
        ({
            let n = normal(known, w, h, x, y);
            let (l, r) = (y * w + (x - 1), y * w + (x + 1));
            let (u, v) = ((y - 1) * w + x, (y + 1) * w + x);
            &&& priorities.edge.ensures((g.0, g.1, n.0 as i32, n.1 as i32), d)
            &&& known[l] && known[r] ==> priorities.slope.ensures(
                (
                    rgba[4 * r],
                    rgba[4 * r + 1],
                    rgba[4 * r + 2],
                    rgba[4 * l],
                    rgba[4 * l + 1],
                    rgba[4 * l + 2],
                ),
                g.0,
            )
            &&& !(known[l] && known[r]) ==> g.0.bits == 0
            &&& known[u] && known[v] ==> priorities.slope.ensures(
                (
                    rgba[4 * v],
                    rgba[4 * v + 1],
                    rgba[4 * v + 2],
                    rgba[4 * u],
                    rgba[4 * u + 1],
                    rgba[4 * u + 2],
                ),
                g.1,
            )
            &&& !(known[u] && known[v]) ==> g.1.bits == 0
        }),
{
    let n = normal(known, w, h, x, y);
    let (gx, gy) = choose|gx: Scalar, gy: Scalar|
        #![trigger priorities.edge.ensures((gx, gy, n.0 as i32, n.1 as i32), d)]
        priorities.slopes(rgba, known, w, h, (x + 1, y), (x - 1, y), gx) && priorities.slopes(
            rgba,
            known,
            w,
            h,
            (x, y + 1),
            (x, y - 1),
            gy,
        ) && priorities.edge.ensures((gx, gy, n.0 as i32, n.1 as i32), d);
    (gx, gy)
}

/// The patch that is filled next is one that no place on the front outranks.
pub proof fn no_place_outranks_the_next_patch<
    M: Fn(&Vec<Scalar>, u32) -> Scalar,
    S: Fn(u8, u8, u8, u8, u8, u8) -> Scalar,
    E: Fn(Scalar, Scalar, i32, i32) -> Scalar,
    P: Fn(Scalar, Scalar) -> Scalar,
>(
    priorities: Priorities<M, S, E, P>,
    a: Stage,
    w: int,
    h: int,
    t: (int, int),
    r: Rating,
    x: int,
    y: int,
) -> (q: Rating)
    requires
        priorities.foremost(a, w, h, t, r),
        front(a.known, w, h, x, y),
    ensures
        priorities.rates(a, w, h, x, y, q),
        !r.priority.nan() && !q.priority.nan() ==> q.priority.rank() <= r.priority.rank(),
        !r.priority.nan() && !q.priority.nan() && q.priority.rank() == r.priority.rank() ==> t.1 < y
            || (t.1 == y && t.0 <= x),
{
    assert(priorities.yields(a, w, h, x, y, t, r));
    choose|q: Rating| #[trigger]
        priorities.rates(a, w, h, x, y, q) && !r.priority.below(q.priority) && (before((x, y), t)
            ==> !q.priority.equals(r.priority))
}

/// A patch is trusted by what is known of it: each number is the confidence of a
/// known pixel within four of the place, every such pixel counts, and with all of
/// the patch known there are as many as there are pixels.
pub proof fn a_patch_is_trusted_by_its_known_pixels(
    conf: Seq<Scalar>,
    known: Seq<bool>,
    w: int,
    h: int,
    x: int,
    y: int,
    dx: int,
    dy: int,
)
    requires
        0 <= x < w,
        0 <= y < h,
        -4 <= dx <= 4,
        -4 <= dy <= 4,
        0 <= x + dx < w,
        0 <= y + dy < h,
    ensures
        confidences(conf, known, w, h, x, y, 81).len() <= patch_area(w, h, x, y, 81) <= 81,
        known[(y + dy) * w + (x + dx)] ==> confidences(conf, known, w, h, x, y, 81).contains(
            conf[(y + dy) * w + (x + dx)],
        ),
        !known[(y + dy) * w + (x + dx)] ==> confidences(conf, known, w, h, x, y, 81).len()
            < patch_area(w, h, x, y, 81),
        4 <= x < w - 4 && 4 <= y < h - 4 ==> patch_area(w, h, x, y, 81) == 81,
        (forall|u: int, v: int|
            #![trigger known[v * w + u]]
            0 <= u < w && 0 <= v < h && -4 <= u - x <= 4 && -4 <= v - y <= 4 ==> known[v * w + u])
            ==> confidences(conf, known, w, h, x, y, 81).len() == patch_area(w, h, x, y, 81),
{
    let j = (dy + 4) * 9 + (dx + 4);
    assert(j % 9 == dx + 4 && j / 9 == dy + 4);
    lemma_trust(conf, known, w, h, x, y, 81, j);
}

proof fn lemma_trust(
    conf: Seq<Scalar>,
    known: Seq<bool>,
    w: int,
    h: int,
    x: int,
    y: int,
    k: nat,
    j: int,
)
    requires
        k <= 81,
        0 <= j,
    ensures
        confidences(conf, known, w, h, x, y, k).len() <= patch_area(w, h, x, y, k) <= k,
        j < k && known_at(known, w, h, x + j % 9 - R, y + j / 9 - R) ==> confidences(
            conf,
            known,
            w,
            h,
            x,
            y,
            k,
        ).contains(conf[pixel(w, x + j % 9 - R, y + j / 9 - R)]),
        j < k && on_image(w, h, x + j % 9 - R, y + j / 9 - R) && !known_at(
            known,
            w,
            h,
            x + j % 9 - R,
            y + j / 9 - R,
        ) ==> confidences(conf, known, w, h, x, y, k).len() < patch_area(w, h, x, y, k),
        4 <= x < w - 4 && 4 <= y < h - 4 ==> patch_area(w, h, x, y, k) == k,
        (forall|u: int, v: int|
            #![trigger known[v * w + u]]
            0 <= u < w && 0 <= v < h && -4 <= u - x <= 4 && -4 <= v - y <= 4 ==> known[v * w + u])
            ==> confidences(conf, known, w, h, x, y, k).len() == patch_area(w, h, x, y, k),
    decreases k,
{
    if k > 0 {
        lemma_trust(conf, known, w, h, x, y, (k - 1) as nat, j);
        let rest = confidences(conf, known, w, h, x, y, (k - 1) as nat);
        let all = confidences(conf, known, w, h, x, y, k);
        let (px, py) = (x + (k - 1) % 9 - R, y + (k - 1) / 9 - R);
        if j < k && known_at(known, w, h, x + j % 9 - R, y + j / 9 - R) {
            let c = conf[pixel(w, x + j % 9 - R, y + j / 9 - R)];
            if j < k - 1 {
                assert(all[rest.index_of(c)] == c);
            } else {
                assert(all[all.len() - 1] == c);
            }
        }
        if on_image(w, h, px, py) {
            assert(known[py * w + px] == known[pixel(w, px, py)]);
        }
    }
}

/// A fill opens with the selection as its hole: a pixel is unknown exactly where
/// it is covered at the threshold or above, the known ones are trusted fully and
/// the others not at all, and no byte has changed.
pub proof fn a_fill_opens_with_the_selection_as_its_hole(
    rgba: Seq<u8>,
    coverage: SelectionCoverage,
    threshold: u8,
    p: int,
)
    requires
        0 <= p < coverage.cells().len(),
    ensures
        ({
            let first = first_stage(rgba, coverage, threshold);
            &&& first.out == rgba
            &&& first.known.len() == coverage.cells().len()
            &&& first.known[p] <==> coverage.cells()[p] < threshold
            &&& first.known[p] ==> first.conf[p].bits == 0x3f80_0000
            &&& !first.known[p] ==> first.conf[p].bits == 0
        }),
{
}

/// What was copied is trusted as far as its patch was, and nothing else changes
/// its trust.
pub proof fn copies_inherit_the_trust_of_their_patch(
    a: Stage,
    b: Stage,
    w: int,
    h: int,
    t: (int, int),
    confidence: Scalar,
    x: int,
    y: int,
)
    requires
        0 < w,
        a.conf.len() == w * h,
        fills_patch(a, b, w, h, t, confidence),
        exists|c: (int, int)| #[trigger] candidate(a.known, w, h, t, c),
        0 <= x < w,
        0 <= y < h,
    ensures
        b.conf[y * w + x] == (if -4 <= x - t.0 <= 4 && -4 <= y - t.1 <= 4 && !a.known[y * w + x] {
            confidence
        } else {
            a.conf[y * w + x]
        }),
{
    crate::grid::lemma_pixel_index(x, y, w, h);
}

} // verus!
