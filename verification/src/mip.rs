//! The mip pyramid: tile windows of zoomed-out levels.
//!
//! Each level halves the one below by a 2× box filter, and is held as square
//! half-float tiles, padded with transparent black past the level's extent. A
//! window is gathered from the tiles it touches and read back to RGBA8; the
//! half-float bridge is lossless, so a window shows the level's exact pixels.
use crate::bridge::{f16_to_rgba8, rgba8_to_f16};
use vstd::arithmetic::div_mod::*;
use vstd::prelude::*;

verus! {

/// The side of a tile, in pixels.
pub const TILE: u32 = 256;

/// Half an extent, rounded up: what the next level has.
pub open spec fn halved(n: int) -> int {
    (n + 1) / 2
}

/// The lesser of two coordinates.
pub open spec fn least(a: int, b: int) -> int {
    if a <= b {
        a
    } else {
        b
    }
}

/// The byte at channel `c` of column `x` of row `y`.
pub open spec fn texel(rgba: Seq<u8>, w: int, x: int, y: int, c: int) -> int {
    rgba[4 * (y * w + x) + c] as int
}

/// The box-filtered value at column `ox` of row `oy` of the next level: the
/// average of the 2×2 block, whose missing column or row at an odd edge repeats
/// the last one.
pub open spec fn boxed(rgba: Seq<u8>, w: int, h: int, ox: int, oy: int, c: int) -> int {
    let (x0, y0) = (2 * ox, 2 * oy);
    let (x1, y1) = (least(2 * ox + 1, w - 1), least(2 * oy + 1, h - 1));
    (texel(rgba, w, x0, y0, c) + texel(rgba, w, x1, y0, c) + texel(rgba, w, x0, y1, c) + texel(
        rgba,
        w,
        x1,
        y1,
        c,
    )) / 4
}

/// The next level of an RGBA8 image.
pub open spec fn downsampled(rgba: Seq<u8>, w: int, h: int) -> Seq<u8> {
    Seq::new(
        (4 * (halved(w) * halved(h))) as nat,
        |i: int| boxed(rgba, w, h, i / 4 % halved(w), i / 4 / halved(w), i % 4) as u8,
    )
}

fn texel_at(rgba: &[u8], w: usize, h: usize, x: usize, y: usize, c: usize) -> (v: u32)
    requires
        rgba@.len() == w * h * 4,
        x < w,
        y < h,
        c < 4,
    ensures
        v == texel(rgba@, w as int, x as int, y as int, c as int),
        v <= 255,
{
    proof {
        crate::grid::lemma_pixel_index(x as int, y as int, w as int, h as int);
        assert(0 <= y * w) by (nonlinear_arith)
            requires
                0 <= y,
                0 <= w,
        ;
    }
    let len: usize = rgba.len();
    rgba[4 * (y * w + x) + c] as u32
}

/// Box-downsample a straight RGBA8 image by 2×: the new extent and pixels.
pub fn downsample_2x(w: u32, h: u32, rgba: &[u8]) -> (next: (u32, u32, Vec<u8>))
    requires
        0 < w,
        0 < h,
        rgba@.len() == w * h * 4,
    ensures
        next.0 == halved(w as int),
        next.1 == halved(h as int),
        next.2@ == downsampled(rgba@, w as int, h as int),
        next.2@.len() == next.0 * next.1 * 4,
{
    let nw: u32 = w / 2 + w % 2;
    let nh: u32 = h / 2 + h % 2;
    let (wz, hz): (usize, usize) = (w as usize, h as usize);
    let ghost goal = downsampled(rgba@, w as int, h as int);
    let len: usize = rgba.len();
    proof {
        assert(nw * nh <= w * h) by (nonlinear_arith)
            requires
                0 < nw <= w,
                0 < nh <= h,
        ;
        assert(0 <= nw * nh) by (nonlinear_arith)
            requires
                0 < nw,
                0 < nh,
        ;
    }
    let n: usize = nw as usize * nh as usize;
    let mut out: Vec<u8> = Vec::new();
    let mut p: usize = 0;
    while p < n
        invariant
            0 < w,
            0 < h,
            wz == w,
            hz == h,
            nw == halved(w as int),
            nh == halved(h as int),
            n == nw * nh,
            rgba@.len() == w * h * 4,
            goal == downsampled(rgba@, w as int, h as int),
            p <= n,
            out@.len() == 4 * p,
            out@ == goal.take(4 * p),
            4 * n <= usize::MAX,
        decreases n - p,
    {
        proof {
            crate::grid::lemma_coordinates(p as int, nw as int, nh as int);
        }
        let ox: usize = p % nw as usize;
        let oy: usize = p / nw as usize;
        let x0: usize = 2 * ox;
        let y0: usize = 2 * oy;
        let x1: usize = if x0 + 1 < wz {
            x0 + 1
        } else {
            wz - 1
        };
        let y1: usize = if y0 + 1 < hz {
            y0 + 1
        } else {
            hz - 1
        };
        let mut c: usize = 0;
        while c < 4
            invariant
                0 < w,
                0 < h,
                wz == w,
                hz == h,
                nw == halved(w as int),
                nh == halved(h as int),
                n == nw * nh,
                rgba@.len() == w * h * 4,
                goal == downsampled(rgba@, w as int, h as int),
                goal.len() == 4 * n,
                p < n,
                ox == p as int % nw as int,
                oy == p as int / nw as int,
                x0 == 2 * ox,
                y0 == 2 * oy,
                x0 < wz,
                y0 < hz,
                x1 == least(2 * ox + 1, w - 1),
                y1 == least(2 * oy + 1, h - 1),
                c <= 4,
                out@.len() == 4 * p + c,
                out@ == goal.take(4 * p + c),
            decreases 4 - c,
        {
            let sum: u32 = texel_at(rgba, wz, hz, x0, y0, c) + texel_at(rgba, wz, hz, x1, y0, c)
                + texel_at(rgba, wz, hz, x0, y1, c) + texel_at(rgba, wz, hz, x1, y1, c);
            let v: u8 = (sum / 4) as u8;
            out.push(v);
            c = c + 1;
            proof {
                let i = 4 * p + c - 1;
                assert(i / 4 == p && i % 4 == c - 1);
                assert(goal[i] == v);
                assert(goal.take(4 * p + c) =~= goal.take(i).push(v));
            }
        }
        p = p + 1;
    }
    proof {
        assert(goal.take(4 * n) =~= goal);
        assert(nw * nh * 4 == 4 * (nw * nh));
    }
    (nw, nh, out)
}

/// The extent of level `l` of an image of extent `n`.
pub open spec fn level_extent(n: int, l: nat) -> int
    decreases l,
{
    if l == 0 {
        n
    } else {
        halved(level_extent(n, (l - 1) as nat))
    }
}

/// The pixels of level `l` of an image.
pub open spec fn level_pixels(rgba: Seq<u8>, w: int, h: int, l: nat) -> Seq<u8>
    decreases l,
{
    if l == 0 {
        rgba
    } else {
        downsampled(
            level_pixels(rgba, w, h, (l - 1) as nat),
            level_extent(w, (l - 1) as nat),
            level_extent(h, (l - 1) as nat),
        )
    }
}

/// The number of tiles along an extent.
pub open spec fn tiles_along(n: int) -> int {
    (n + 255) / 256
}

/// The level pixel under pixel `p` of the tile at column `tx` of row `ty`, or
/// -1 past the level's extent.
pub open spec fn tile_map(w: int, h: int, tx: int, ty: int) -> spec_fn(int) -> int {
    |p: int|
        {
            let x = 256 * tx + p % 256;
            let y = 256 * ty + p / 256;
            if x < w && y < h {
                y * w + x
            } else {
                -1
            }
        }
}

/// The bytes of the tile at column `tx` of row `ty`, before the bridge.
pub open spec fn tile_bytes(rgba: Seq<u8>, w: int, h: int, tx: int, ty: int) -> Seq<u8> {
    crate::grid::gathered(rgba, 4, 65536, tile_map(w, h, tx, ty))
}

/// One level's tiles, row by row.
#[derive(Debug)]
struct Level {
    width: u32,
    height: u32,
    tiles: Vec<Vec<u8>>,
}

impl Level {
    /// Whether the tiles hold exactly the level's pixels.
    spec fn holds(self, rgba: Seq<u8>) -> bool {
        let (w, h) = (self.width as int, self.height as int);
        &&& rgba.len() == w * h * 4
        &&& self.tiles@.len() == tiles_along(w) * tiles_along(h)
        &&& forall|t: int|
            0 <= t < self.tiles@.len() ==> (#[trigger] self.tiles@[t])@ == crate::bridge::widened(
                tile_bytes(rgba, w, h, t % tiles_along(w), t / tiles_along(w)),
            )
    }
}

fn store_tile(rgba: &[u8], w: usize, h: usize, tx: usize, ty: usize) -> (tile: Vec<u8>)
    requires
        rgba@.len() == w * h * 4,
        256 * tx < w,
        256 * ty < h,
        w <= u32::MAX,
        h <= u32::MAX,
    ensures
        tile@ == crate::bridge::widened(
            tile_bytes(rgba@, w as int, h as int, tx as int, ty as int),
        ),
{
    let ghost map = tile_map(w as int, h as int, tx as int, ty as int);
    let len: usize = rgba.len();
    proof {
        assert forall|p: int| 0 <= p < 65536 && 0 <= #[trigger] map(p) implies 4 * map(p) + 4
            <= rgba@.len() by {
            let x = 256 * tx + p % 256;
            let y = 256 * ty + p / 256;
            crate::grid::lemma_pixel_index(x, y, w as int, h as int);
        }
    }
    let pick = |p: usize| -> (q: Option<usize>)
        requires
            p < 65536,
            256 * tx < w,
            256 * ty < h,
            w <= u32::MAX,
            h <= u32::MAX,
            w * h * 4 <= usize::MAX,
        ensures
            match q {
                Some(i) => i == tile_map(w as int, h as int, tx as int, ty as int)(p as int),
                None => tile_map(w as int, h as int, tx as int, ty as int)(p as int) < 0,
            },
        {
            let cx: usize = p % 256;
            let cy: usize = p / 256;
            if cx < w - 256 * tx && cy < h - 256 * ty {
                let x: usize = 256 * tx + cx;
                let y: usize = 256 * ty + cy;
                proof {
                    crate::grid::lemma_pixel_index(x as int, y as int, w as int, h as int);
                    assert(0 <= y * w) by (nonlinear_arith)
                        requires
                            0 <= y,
                            0 <= w,
                    ;
                }
                Some(y * w + x)
            } else {
                None
            }
        };
    let bytes: Vec<u8> = crate::grid::gather(rgba, 4, 65536, pick, Ghost(map));
    rgba8_to_f16(bytes.as_slice())
}

/// Store a level's pixels as half-float tiles.
fn store_level_tiles(w: u32, h: u32, rgba: &[u8]) -> (level: Level)
    requires
        rgba@.len() == w * h * 4,
    ensures
        level.width == w,
        level.height == h,
        level.holds(rgba@),
{
    let (wz, hz): (usize, usize) = (w as usize, h as usize);
    let cols: usize = wz / 256 + (if wz % 256 > 0 {
        1usize
    } else {
        0usize
    });
    let rows: usize = hz / 256 + (if hz % 256 > 0 {
        1usize
    } else {
        0usize
    });
    let mut tiles: Vec<Vec<u8>> = Vec::new();
    let mut ty: usize = 0;
    proof {
        assert(0 * cols == 0) by (nonlinear_arith);
    }
    while ty < rows
        invariant
            rgba@.len() == w * h * 4,
            wz == w,
            hz == h,
            cols == tiles_along(w as int),
            rows == tiles_along(h as int),
            ty <= rows,
            tiles@.len() == ty * cols,
            forall|t: int|
                0 <= t < tiles@.len() ==> (#[trigger] tiles@[t])@ == crate::bridge::widened(
                    tile_bytes(rgba@, w as int, h as int, t % cols as int, t / cols as int),
                ),
        decreases rows - ty,
    {
        let mut tx: usize = 0;
        while tx < cols
            invariant
                rgba@.len() == w * h * 4,
                wz == w,
                hz == h,
                cols == tiles_along(w as int),
                rows == tiles_along(h as int),
                ty < rows,
                tx <= cols,
                tiles@.len() == ty * cols + tx,
                forall|t: int|
                    0 <= t < tiles@.len() ==> (#[trigger] tiles@[t])@ == crate::bridge::widened(
                        tile_bytes(rgba@, w as int, h as int, t % cols as int, t / cols as int),
                    ),
            decreases cols - tx,
        {
            let tile: Vec<u8> = store_tile(rgba, wz, hz, tx, ty);
            proof {
                crate::grid::lemma_pixel_index(tx as int, ty as int, cols as int, rows as int);
            }
            tiles.push(tile);
            tx = tx + 1;
        }
        ty = ty + 1;
        proof {
            assert(ty * cols == (ty - 1) * cols + cols) by (nonlinear_arith);
        }
    }
    proof {
        assert(rows * cols == cols * rows) by (nonlinear_arith);
    }
    Level { width: w, height: h, tiles }
}

/// A decoded image's mip pyramid.
pub struct MipPyramid {
    levels: Vec<Level>,
    source: Ghost<Seq<u8>>,
}

impl MipPyramid {
    /// The image the pyramid was built from.
    pub closed spec fn image(self) -> Seq<u8> {
        self.source@
    }

    /// The number of levels.
    pub closed spec fn depth(self) -> nat {
        self.levels@.len()
    }

    /// The width of a level.
    pub closed spec fn columns(self, l: int) -> int {
        self.levels@[l].width as int
    }

    /// The height of a level.
    pub closed spec fn rows(self, l: int) -> int {
        self.levels@[l].height as int
    }

    /// The pixels of a level.
    pub open spec fn pixels(self, l: int) -> Seq<u8> {
        level_pixels(self.image(), self.columns(0), self.rows(0), l as nat)
    }

    /// Whether every level has the extent and holds the pixels it should, and
    /// only the last may be a single pixel.
    pub closed spec fn wf(self) -> bool {
        &&& 0 < self.levels@.len() <= 256
        &&& forall|l: int|
            0 <= l < self.levels@.len() ==> {
                &&& (#[trigger] self.levels@[l]).width == level_extent(self.columns(0), l as nat)
                &&& self.levels@[l].height == level_extent(self.rows(0), l as nat)
                &&& self.levels@[l].holds(self.pixels(l))
            }
    }

    /// Every level of a pyramid is half the one below, rounded up.
    pub proof fn lemma_extents(self, l: int)
        requires
            self.wf(),
            0 <= l < self.depth(),
        ensures
            self.columns(l) == level_extent(self.columns(0), l as nat),
            self.rows(l) == level_extent(self.rows(0), l as nat),
    {
    }

    /// Build the pyramid of a straight RGBA8 image up to `max_level`. A level
    /// that has collapsed to a single pixel is the natural top.
    pub fn build(width: u32, height: u32, rgba: &[u8], max_level: u8) -> (pyramid: MipPyramid)
        requires
            rgba@.len() == width * height * 4,
            (width > 0 && height > 0) || (width <= 1 && height <= 1),
        ensures
            pyramid.wf(),
            pyramid.image() == rgba@,
            pyramid.columns(0) == width,
            pyramid.rows(0) == height,
            1 <= pyramid.depth() <= max_level + 1,
            pyramid.depth() <= max_level ==> pyramid.columns(pyramid.depth() - 1) <= 1
                && pyramid.rows(pyramid.depth() - 1) <= 1,
            forall|l: int|
                0 <= l < pyramid.depth() - 1 ==> (#[trigger] pyramid.columns(l)) > 1
                    || pyramid.rows(l) > 1,
    {
        let ghost src = rgba@;
        let mut levels: Vec<Level> = Vec::new();
        let mut cur: Vec<u8> = Vec::new();
        cur.extend_from_slice(rgba);
        proof {
            assert(cur@ =~= rgba@);
        }
        let mut cw: u32 = width;
        let mut ch: u32 = height;
        let mut level: usize = 0;
        let top: usize = max_level as usize;
        let mut done: bool = false;
        while !done
            invariant
                top == max_level,
                level <= top || done,
                levels@.len() == level,
                level <= top + 1,
                src == rgba@,
                done ==> level > 0,
                !done ==> (width > 0 && height > 0) || (level == 0 && width <= 1 && height <= 1),
                !done ==> cw == level_extent(width as int, level as nat) && ch == level_extent(
                    height as int,
                    level as nat,
                ) && cur@ == level_pixels(src, width as int, height as int, level as nat)
                    && cur@.len() == cw * ch * 4,
                !done && level > 0 ==> cw > 0 && ch > 0,
                level == 0 ==> !done && cw == width && ch == height,
                forall|l: int|
                    0 <= l < level ==> {
                        &&& (#[trigger] levels@[l]).width == level_extent(width as int, l as nat)
                        &&& levels@[l].height == level_extent(height as int, l as nat)
                        &&& levels@[l].holds(
                            level_pixels(src, width as int, height as int, l as nat),
                        )
                    },
                forall|l: int|
                    0 <= l < level - (if done {
                        1int
                    } else {
                        0int
                    }) ==> (#[trigger] levels@[l]).width > 1 || levels@[l].height > 1,
                done && level <= top ==> levels@[level - 1].width <= 1 && levels@[level - 1].height
                    <= 1,
            decreases top + 1 - level,
        {
            let stored: Level = store_level_tiles(cw, ch, cur.as_slice());
            levels.push(stored);
            if cw <= 1 && ch <= 1 {
                done = true;
            } else if level == top {
                done = true;
            } else {
                let (nw, nh, next) = downsample_2x(cw, ch, cur.as_slice());
                cur = next;
                cw = nw;
                ch = nh;
            }
            level = level + 1;
        }
        MipPyramid { levels, source: Ghost(src) }
    }

    /// The highest level the pyramid holds.
    pub fn max_level(&self) -> (l: u8)
        requires
            self.wf(),
        ensures
            l == self.depth() - 1,
    {
        (self.levels.len() - 1) as u8
    }

    /// The extent of a level, or `None` if it was not built.
    pub fn level_dims(&self, level: u8) -> (dims: Option<(u32, u32)>)
        requires
            self.wf(),
        ensures
            dims is Some <==> level < self.depth(),
            dims matches Some(d) ==> d.0 == self.columns(level as int) && d.1 == self.rows(
                level as int,
            ),
    {
        if (level as usize) < self.levels.len() {
            let l: &Level = &self.levels[level as usize];
            Some((l.width, l.height))
        } else {
            None
        }
    }

    /// Resolve a window `(x, y, w, h)` at `level` to tightly packed RGBA8,
    /// clipped to the level's extent: the bytes and the clipped extent, or an
    /// empty buffer with `(0, 0)` when the window misses the level or the
    /// level was not built.
    pub fn window_rgba8(&self, level: u8, x: u32, y: u32, w: u32, h: u32) -> (cut: (
        Vec<u8>,
        u32,
        u32,
    ))
        requires
            self.wf(),
        ensures
            (cut.0@, cut.1 as int, cut.2 as int) == (if level < self.depth() {
                crate::ingest::window(
                    self.pixels(level as int),
                    self.columns(level as int),
                    self.rows(level as int),
                    x as int,
                    y as int,
                    w as int,
                    h as int,
                )
            } else {
                (Seq::empty(), 0, 0)
            }),
    {
        if level as usize >= self.levels.len() {
            return (Vec::new(), 0, 0);
        }
        let l: &Level = &self.levels[level as usize];
        read_window(l, Ghost(self.pixels(level as int)), x, y, w, h)
    }
}

/// A tile read back through the bridge holds its pixels.
proof fn tile_reads_back(level: Level, rgba: Seq<u8>, t: int)
    requires
        level.holds(rgba),
        0 <= t < level.tiles@.len(),
    ensures
        crate::bridge::narrowed(level.tiles@[t]@) == tile_bytes(
            rgba,
            level.width as int,
            level.height as int,
            t % tiles_along(level.width as int),
            t / tiles_along(level.width as int),
        ),
{
    crate::bridge::window_round_trip(
        tile_bytes(
            rgba,
            level.width as int,
            level.height as int,
            t % tiles_along(level.width as int),
            t / tiles_along(level.width as int),
        ),
    );
}

/// A level pixel found in the tile that holds it.
proof fn tile_pixel(rgba: Seq<u8>, w: int, h: int, x: int, y: int, k: int)
    requires
        0 <= x < w,
        0 <= y < h,
        0 <= k < 4,
    ensures
        ({
            let p = 256 * (y % 256) + x % 256;
            &&& 0 <= p < 65536
            &&& tile_bytes(rgba, w, h, x / 256, y / 256)[4 * p + k] == rgba[4 * (y * w + x) + k]
            &&& 4 * p + k < tile_bytes(rgba, w, h, x / 256, y / 256).len()
        }),
{
    let p = 256 * (y % 256) + x % 256;
    let map = tile_map(w, h, x / 256, y / 256);
    crate::grid::gathered_pixel(rgba, 4, 65536, map, p, k);
    assert(p % 256 == x % 256 && p / 256 == y % 256);
    assert(0 <= y * w + x) by (nonlinear_arith)
        requires
            0 <= x,
            0 <= y,
            0 <= w,
    ;
}

/// The tile at a level pixel is one of the level's tiles.
proof fn tile_in_grid(w: int, h: int, x: int, y: int)
    requires
        0 <= x < w,
        0 <= y < h,
    ensures
        ({
            let t = (y / 256) * tiles_along(w) + x / 256;
            &&& 0 <= t < tiles_along(w) * tiles_along(h)
            &&& t % tiles_along(w) == x / 256
            &&& t / tiles_along(w) == y / 256
        }),
{
    crate::grid::lemma_pixel_index(x / 256, y / 256, tiles_along(w), tiles_along(h));
}

/// Read the tiles from column `tx0` to `tx1` of rows `ty0` to `ty1` back to
/// RGBA8, row by row.
fn read_tiles(
    level: &Level,
    rgba: Ghost<Seq<u8>>,
    tx0: usize,
    tx1: usize,
    ty0: usize,
    ty1: usize,
) -> (tiles: Vec<Vec<u8>>)
    requires
        level.holds(rgba@),
        tx0 <= tx1,
        ty0 <= ty1,
        256 * tx1 < level.width,
        256 * ty1 < level.height,
    ensures
        tiles@.len() == (ty1 + 1 - ty0) * (tx1 + 1 - tx0),
        forall|t: int|
            0 <= t < tiles@.len() ==> (#[trigger] tiles@[t])@ == tile_bytes(
                rgba@,
                level.width as int,
                level.height as int,
                tx0 + t % (tx1 + 1 - tx0),
                ty0 + t / (tx1 + 1 - tx0),
            ),
{
    let (lw, lh): (u32, u32) = (level.width, level.height);
    let span: usize = tx1 - tx0 + 1;
    let rows: usize = ty1 - ty0 + 1;
    let mut tiles: Vec<Vec<u8>> = Vec::new();
    let mut r: usize = 0;
    proof {
        assert(0 * span == 0) by (nonlinear_arith);
    }
    while r < rows
        invariant
            level.holds(rgba@),
            lw == level.width,
            lh == level.height,
            256 * tx1 < lw,
            256 * ty1 < lh,
            span == tx1 - tx0 + 1,
            rows == ty1 - ty0 + 1,
            r <= rows,
            tiles@.len() == r * span,
            forall|t: int|
                0 <= t < tiles@.len() ==> (#[trigger] tiles@[t])@ == tile_bytes(
                    rgba@,
                    lw as int,
                    lh as int,
                    tx0 + t % span as int,
                    ty0 + t / span as int,
                ),
        decreases rows - r,
    {
        let mut c: usize = 0;
        while c < span
            invariant
                level.holds(rgba@),
                lw == level.width,
                lh == level.height,
                256 * tx1 < lw,
                256 * ty1 < lh,
                span == tx1 - tx0 + 1,
                rows == ty1 - ty0 + 1,
                r < rows,
                c <= span,
                tiles@.len() == r * span + c,
                forall|t: int|
                    0 <= t < tiles@.len() ==> (#[trigger] tiles@[t])@ == tile_bytes(
                        rgba@,
                        lw as int,
                        lh as int,
                        tx0 + t % span as int,
                        ty0 + t / span as int,
                    ),
            decreases span - c,
        {
            let tile: Vec<u8> = read_tile(level, rgba, tx0 + c, ty0 + r);
            proof {
                crate::grid::lemma_pixel_index(c as int, r as int, span as int, rows as int);
            }
            tiles.push(tile);
            c = c + 1;
        }
        r = r + 1;
        proof {
            assert(r * span == (r - 1) * span + span) by (nonlinear_arith);
        }
    }
    tiles
}

/// Read one tile back to RGBA8.
fn read_tile(level: &Level, rgba: Ghost<Seq<u8>>, tx: usize, ty: usize) -> (tile: Vec<u8>)
    requires
        level.holds(rgba@),
        256 * tx < level.width,
        256 * ty < level.height,
    ensures
        tile@ == tile_bytes(
            rgba@,
            level.width as int,
            level.height as int,
            tx as int,
            ty as int,
        ),
{
    let lw: u32 = level.width;
    let cols: usize = lw as usize / 256 + (if lw % 256 > 0 {
        1usize
    } else {
        0usize
    });
    proof {
        let (px, py) = (256 * tx as int, 256 * ty as int);
        tile_in_grid(level.width as int, level.height as int, px, py);
        assert(px / 256 == tx && py / 256 == ty);
        assert(0 <= ty * cols) by (nonlinear_arith)
            requires
                0 <= ty,
                0 <= cols,
        ;
        tile_reads_back(*level, rgba@, ty * cols + tx);
    }
    let total: usize = level.tiles.len();
    f16_to_rgba8(level.tiles[ty * cols + tx].as_slice())
}

fn read_window(level: &Level, rgba: Ghost<Seq<u8>>, x: u32, y: u32, w: u32, h: u32) -> (cut: (
    Vec<u8>,
    u32,
    u32,
))
    requires
        level.holds(rgba@),
    ensures
        (cut.0@, cut.1 as int, cut.2 as int) == crate::ingest::window(
            rgba@,
            level.width as int,
            level.height as int,
            x as int,
            y as int,
            w as int,
            h as int,
        ),
{
    let (lw, lh): (u32, u32) = (level.width, level.height);
    let tw: u32 = if x >= lw {
        0
    } else if w <= lw - x {
        w
    } else {
        lw - x
    };
    let th: u32 = if y >= lh {
        0
    } else if h <= lh - y {
        h
    } else {
        lh - y
    };
    if tw == 0 || th == 0 {
        return (Vec::new(), 0, 0);
    }
    let (tx0, tx1): (usize, usize) = (x as usize / 256, (x as usize + tw as usize - 1) / 256);
    let (ty0, ty1): (usize, usize) = (y as usize / 256, (y as usize + th as usize - 1) / 256);
    let span: usize = tx1 - tx0 + 1;
    let tiles: Vec<Vec<u8>> = read_tiles(level, rgba, tx0, tx1, ty0, ty1);
    // Copy the window's pixels out of them.
    let ghost goal = crate::ingest::window(
        rgba@,
        lw as int,
        lh as int,
        x as int,
        y as int,
        tw as int,
        th as int,
    ).0;
    let ghost map = crate::ingest::window_map(lw as int, x as int, y as int, tw as int);
    let total: usize = tiles.len();
    let mut out: Vec<u8> = Vec::new();
    let mut oy: u32 = 0;
    proof {
        assert(4 * (0 * tw) == 0) by (nonlinear_arith);
    }
    while oy < th
        invariant
            lw == level.width,
            lh == level.height,
            0 < tw,
            0 < th,
            x + tw <= lw,
            y + th <= lh,
            tx0 == x as int / 256,
            tx1 == (x + tw - 1) / 256,
            ty0 == y as int / 256,
            ty1 == (y + th - 1) / 256,
            span == tx1 - tx0 + 1,
            total == tiles@.len(),
            tiles@.len() == (ty1 + 1 - ty0) * span,
            forall|t: int|
                0 <= t < tiles@.len() ==> (#[trigger] tiles@[t])@ == tile_bytes(
                    rgba@,
                    lw as int,
                    lh as int,
                    tx0 + t % span as int,
                    ty0 + t / span as int,
                ),
            map == crate::ingest::window_map(lw as int, x as int, y as int, tw as int),
            goal == crate::grid::gathered(rgba@, 4, (tw * th) as nat, map),
            oy <= th,
            out@.len() == 4 * (oy * tw),
            out@ == goal.take(4 * (oy * tw)),
        decreases th - oy,
    {
        let mut ox: u32 = 0;
        while ox < tw
            invariant
                lw == level.width,
                lh == level.height,
                0 < tw,
                0 < th,
                x + tw <= lw,
                y + th <= lh,
                tx0 == x as int / 256,
                tx1 == (x + tw - 1) / 256,
                ty0 == y as int / 256,
                ty1 == (y + th - 1) / 256,
                span == tx1 - tx0 + 1,
                total == tiles@.len(),
                tiles@.len() == (ty1 + 1 - ty0) * span,
                forall|t: int|
                    0 <= t < tiles@.len() ==> (#[trigger] tiles@[t])@ == tile_bytes(
                        rgba@,
                        lw as int,
                        lh as int,
                        tx0 + t % span as int,
                        ty0 + t / span as int,
                    ),
                map == crate::ingest::window_map(lw as int, x as int, y as int, tw as int),
                goal == crate::grid::gathered(rgba@, 4, (tw * th) as nat, map),
                oy < th,
                ox <= tw,
                out@.len() == 4 * (oy * tw + ox),
                out@ == goal.take(4 * (oy * tw + ox)),
            decreases tw - ox,
        {
            let px: usize = x as usize + ox as usize;
            let py: usize = y as usize + oy as usize;
            let (tx, ty): (usize, usize) = (px / 256, py / 256);
            let ghost q = oy * tw + ox;
            proof {
                crate::grid::lemma_pixel_index(
                    tx - tx0,
                    ty - ty0,
                    span as int,
                    ty1 + 1 - ty0,
                );
                assert(span * (ty1 + 1 - ty0) == (ty1 + 1 - ty0) * span) by (nonlinear_arith);
                assert(0 <= (ty - ty0) * span) by (nonlinear_arith)
                    requires
                        0 <= ty - ty0,
                        0 <= span,
                ;
                crate::grid::lemma_pixel_index(ox as int, oy as int, tw as int, th as int);
                assert(tw * th == tw as int * th as int);
                assert(map(q) == py * lw + px);
                assert(0 <= py * lw + px) by (nonlinear_arith)
                    requires
                        0 <= py,
                        0 <= px,
                        0 <= lw,
                ;
            }
            let t: usize = (ty - ty0) * span + (tx - tx0);
            let base: usize = 4 * (256 * (py % 256) + px % 256);
            let mut k: usize = 0;
            while k < 4
                invariant
                    px < lw,
                    py < lh,
                    t < tiles@.len(),
                    tiles@[t as int]@ == tile_bytes(
                        rgba@,
                        lw as int,
                        lh as int,
                        px as int / 256,
                        py as int / 256,
                    ),
                    base == 4 * (256 * (py as int % 256) + px as int % 256),
                    map(q) == py * lw + px,
                    0 <= map(q),
                    0 <= q < tw * th,
                    goal == crate::grid::gathered(rgba@, 4, (tw * th) as nat, map),
                    k <= 4,
                    out@.len() == 4 * q + k,
                    out@ == goal.take(4 * q + k),
                decreases 4 - k,
            {
                proof {
                    tile_pixel(rgba@, lw as int, lh as int, px as int, py as int, k as int);
                    crate::grid::gathered_pixel(rgba@, 4, (tw * th) as nat, map, q, k as int);
                }
                let v: u8 = tiles[t][base + k];
                out.push(v);
                k = k + 1;
                proof {
                    assert(goal.take(4 * q + k) =~= goal.take(4 * q + k - 1).push(v));
                }
            }
            ox = ox + 1;
        }
        oy = oy + 1;
        proof {
            assert(oy * tw == (oy - 1) * tw + tw) by (nonlinear_arith);
        }
    }
    proof {
        assert(th * tw == tw * th) by (nonlinear_arith);
        assert(goal.take(4 * (tw * th)) =~= goal);
    }
    (out, tw, th)
}

/// A solid image stays solid at the next level.
pub proof fn a_solid_level_stays_solid(rgba: Seq<u8>, w: int, h: int, color: Seq<u8>, i: int)
    requires
        0 < w,
        0 < h,
        rgba.len() == w * h * 4,
        color.len() == 4,
        forall|j: int| 0 <= j < rgba.len() ==> #[trigger] rgba[j] == color[j % 4],
        0 <= i < downsampled(rgba, w, h).len(),
    ensures
        downsampled(rgba, w, h)[i] == color[i % 4],
{
    let (nw, nh) = (halved(w), halved(h));
    let p = i / 4;
    let c = i % 4;
    crate::grid::lemma_coordinates(p, nw, nh);
    let (ox, oy) = (p % nw, p / nw);
    let (x0, y0) = (2 * ox, 2 * oy);
    let (x1, y1) = (least(2 * ox + 1, w - 1), least(2 * oy + 1, h - 1));
    lemma_solid_texel(rgba, w, h, color, x0, y0, c);
    lemma_solid_texel(rgba, w, h, color, x1, y0, c);
    lemma_solid_texel(rgba, w, h, color, x0, y1, c);
    lemma_solid_texel(rgba, w, h, color, x1, y1, c);
}

proof fn lemma_solid_texel(
    rgba: Seq<u8>,
    w: int,
    h: int,
    color: Seq<u8>,
    x: int,
    y: int,
    c: int,
)
    requires
        rgba.len() == w * h * 4,
        forall|j: int| 0 <= j < rgba.len() ==> #[trigger] rgba[j] == color[j % 4],
        0 <= x < w,
        0 <= y < h,
        0 <= c < 4,
    ensures
        texel(rgba, w, x, y, c) == color[c],
{
    crate::grid::lemma_pixel_index(x, y, w, h);
    crate::grid::lemma_split(4, y * w + x, c);
    assert(rgba[4 * (y * w + x) + c] == color[(4 * (y * w + x) + c) % 4]);
}

/// A level never has less than one pixel, nor more than the one below, and is
/// smaller unless that is a single pixel.
pub proof fn levels_shrink(n: int)
    requires
        0 < n,
    ensures
        0 < halved(n) <= n,
        n > 1 ==> halved(n) < n,
{
}

/// A pixel of the next level is the average of the two by two pixels beneath it,
/// rounded down, channel by channel; at an odd edge the last column or row counts
/// for the missing one.
pub proof fn a_level_averages_the_four_pixels_beneath(
    rgba: Seq<u8>,
    w: int,
    h: int,
    x: int,
    y: int,
    c: int,
)
    requires
        0 < w,
        0 < h,
        rgba.len() == w * h * 4,
        0 <= 2 * x < w,
        0 <= 2 * y < h,
        0 <= c < 4,
    ensures
        ({
            let right = if 2 * x + 1 < w {
                2 * x + 1
            } else {
                2 * x
            };
            let under = if 2 * y + 1 < h {
                2 * y + 1
            } else {
                2 * y
            };
            let sum = rgba[4 * (2 * y * w + 2 * x) + c] + rgba[4 * (2 * y * w + right) + c]
                + rgba[4 * (under * w + 2 * x) + c] + rgba[4 * (under * w + right) + c];
            let v = downsampled(rgba, w, h)[4 * (y * ((w + 1) / 2) + x) + c];
            4 * v <= sum < 4 * v + 4
        }),
{
    let (nw, nh) = (halved(w), halved(h));
    crate::grid::lemma_pixel_index(x, y, nw, nh);
    crate::grid::lemma_split(4, y * nw + x, c);
    let p = y * nw + x;
    assert(0 <= 4 * p + c < 4 * (nw * nh));
}

} // verus!
