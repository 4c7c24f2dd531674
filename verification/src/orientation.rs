//! EXIF orientation: turning a decoded buffer upright.
use vstd::prelude::*;

verus! {

/// The eight EXIF orientations, named by where the stored first row and first
/// column belong.
#[derive(Debug, Clone, Copy, PartialEq, Eq, Structural)]
pub enum Orientation {
    TopLeft,
    TopRight,
    BottomRight,
    BottomLeft,
    LeftTop,
    RightTop,
    RightBottom,
    LeftBottom,
}

impl Orientation {
    /// Whether width and height trade places.
    pub open spec fn transposes(self) -> bool {
        self is LeftTop || self is RightTop || self is RightBottom || self is LeftBottom
    }

    /// The stored pixel that belongs at column `dx` of row `dy` of the upright
    /// image, for stored extent `w × h`.
    pub open spec fn source_of(self, w: int, h: int, dx: int, dy: int) -> (int, int) {
        match self {
            Orientation::TopLeft => (dx, dy),
            Orientation::TopRight => (w - 1 - dx, dy),
            Orientation::BottomRight => (w - 1 - dx, h - 1 - dy),
            Orientation::BottomLeft => (dx, h - 1 - dy),
            Orientation::LeftTop => (dy, dx),
            Orientation::RightTop => (dy, h - 1 - dx),
            Orientation::RightBottom => (w - 1 - dy, h - 1 - dx),
            Orientation::LeftBottom => (w - 1 - dy, dx),
        }
    }

    /// The upright width for stored extent `w × h`.
    pub open spec fn upright_width(self, w: int, h: int) -> int {
        if self.transposes() {
            h
        } else {
            w
        }
    }

    /// The upright height for stored extent `w × h`.
    pub open spec fn upright_height(self, w: int, h: int) -> int {
        if self.transposes() {
            w
        } else {
            h
        }
    }

    /// The stored pixel of each upright pixel.
    pub open spec fn map(self, w: int, h: int) -> spec_fn(int) -> int {
        |p: int|
            {
                let dw = self.upright_width(w, h);
                let (sx, sy) = self.source_of(w, h, p % dw, p / dw);
                sy * w + sx
            }
    }

    /// The orientation that undoes this one: the quarter turns undo each
    /// other, every other case undoes itself.
    pub open spec fn inverse(self) -> Orientation {
        match self {
            Orientation::RightTop => Orientation::LeftBottom,
            Orientation::LeftBottom => Orientation::RightTop,
            _ => self,
        }
    }

    /// Whether nothing has to be done.
    pub fn is_identity(self) -> (identity: bool)
        ensures
            identity <==> self is TopLeft,
    {
        matches!(self, Orientation::TopLeft)
    }

    /// Whether width and height trade places.
    pub fn swaps_dimensions(self) -> (swaps: bool)
        ensures
            swaps <==> self.transposes(),
    {
        matches!(
            self,
            Orientation::LeftTop | Orientation::RightTop | Orientation::RightBottom | Orientation::LeftBottom
        )
    }
}

/// Every upright pixel comes from a stored pixel.
pub proof fn orientation_in_range(o: Orientation, w: int, h: int, p: int)
    requires
        0 <= w,
        0 <= h,
        0 <= p < w * h,
    ensures
        0 <= o.map(w, h)(p) < w * h,
        ({
            let dw = o.upright_width(w, h);
            let (sx, sy) = o.source_of(w, h, p % dw, p / dw);
            &&& 0 <= p % dw < dw
            &&& 0 <= p / dw < o.upright_height(w, h)
            &&& 0 <= sx < w
            &&& 0 <= sy < h
        }),
{
    assert(0 < w && 0 < h) by (nonlinear_arith)
        requires
            0 <= w,
            0 <= h,
            0 < w * h,
    ;
    let dw = o.upright_width(w, h);
    let dh = o.upright_height(w, h);
    assert(dw * dh == w * h) by (nonlinear_arith)
        requires
            (dw == w && dh == h) || (dw == h && dh == w),
    ;
    crate::grid::lemma_coordinates(p, dw, dh);
    let (sx, sy) = o.source_of(w, h, p % dw, p / dw);
    crate::grid::lemma_pixel_index(sx, sy, w, h);
}

/// The upright pixels of a stored buffer with `size` bytes per pixel.
pub open spec fn upright(bytes: Seq<u8>, size: nat, w: int, h: int, o: Orientation) -> Seq<u8> {
    if o is TopLeft {
        bytes
    } else {
        crate::grid::gathered(bytes, size, (w * h) as nat, o.map(w, h))
    }
}

fn source_pixel(o: Orientation, w: usize, h: usize, p: usize) -> (q: usize)
    requires
        p < w * h,
        w * h <= usize::MAX,
    ensures
        q == o.map(w as int, h as int)(p as int),
        q < w * h,
{
    proof {
        orientation_in_range(o, w as int, h as int, p as int);
    }
    let dw: usize = if o.swaps_dimensions() {
        h
    } else {
        w
    };
    let dx: usize = p % dw;
    let dy: usize = p / dw;
    let (sx, sy): (usize, usize) = match o {
        Orientation::TopLeft => (dx, dy),
        Orientation::TopRight => (w - 1 - dx, dy),
        Orientation::BottomRight => (w - 1 - dx, h - 1 - dy),
        Orientation::BottomLeft => (dx, h - 1 - dy),
        Orientation::LeftTop => (dy, dx),
        Orientation::RightTop => (dy, h - 1 - dx),
        Orientation::RightBottom => (w - 1 - dy, h - 1 - dx),
        Orientation::LeftBottom => (w - 1 - dy, dx),
    };
    proof {
        assert(0 <= sy * w) by (nonlinear_arith)
            requires
                0 <= sy,
                0 <= w,
        ;
    }
    sy * w + sx
}

/// Turn a buffer of `size`-byte pixels upright: the reoriented pixels and the
/// upright extent. The identity returns the input untouched.
pub fn orient(bytes: Vec<u8>, size: usize, w: u32, h: u32, o: Orientation) -> (turned: (
    Vec<u8>,
    u32,
    u32,
))
    requires
        size == 4 || size == 8,
        w * h * size <= bytes@.len(),
    ensures
        turned.0@ == upright(bytes@, size as nat, w as int, h as int, o),
        turned.1 == o.upright_width(w as int, h as int),
        turned.2 == o.upright_height(w as int, h as int),
{
    if o.is_identity() {
        return (bytes, w, h);
    }
    let len: usize = bytes.len();
    proof {
        assert(w * h <= w * h * size) by (nonlinear_arith)
            requires
                0 <= w,
                0 <= h,
                1 <= size,
        ;
        assert(w * h * size == size * (w * h)) by (nonlinear_arith);
    }
    let (wz, hz): (usize, usize) = (w as usize, h as usize);
    let n: usize = wz * hz;
    let ghost map = o.map(w as int, h as int);
    proof {
        assert forall|p: int| 0 <= p < n && 0 <= #[trigger] map(p) implies size * map(p) + size
            <= bytes@.len() by {
            orientation_in_range(o, w as int, h as int, p);
            crate::grid::lemma_pixel_fits(size as int, map(p), n as int);
        }
    }
    let pick = |p: usize| -> (q: Option<usize>)
        requires
            p < n,
            n == wz * hz,
            wz == w,
            hz == h,
        ensures
            q matches Some(i) && i == o.map(w as int, h as int)(p as int),
        { Some(source_pixel(o, wz, hz, p)) };
    let out: Vec<u8> = crate::grid::gather(bytes.as_slice(), size, n, pick, Ghost(map));
    if o.swaps_dimensions() {
        (out, h, w)
    } else {
        (out, w, h)
    }
}

/// Apply an EXIF orientation to a tightly packed straight RGBA8 buffer.
pub fn apply_orientation(rgba: Vec<u8>, w: u32, h: u32, o: Orientation) -> (turned: (
    Vec<u8>,
    u32,
    u32,
))
    requires
        w * h * 4 <= rgba@.len(),
    ensures
        turned.0@ == upright(rgba@, 4, w as int, h as int, o),
        turned.1 == o.upright_width(w as int, h as int),
        turned.2 == o.upright_height(w as int, h as int),
{
    orient(rgba, 4, w, h, o)
}

/// The inverse orientation restores the buffer: no pixel is lost, repeated or
/// torn by turning an image upright.
pub proof fn orientation_round_trip(bytes: Seq<u8>, size: nat, w: int, h: int, o: Orientation)
    requires
        0 < size,
        0 <= w,
        0 <= h,
        bytes.len() == size * (w * h) as nat,
    ensures
        upright(
            upright(bytes, size, w, h, o),
            size,
            o.upright_width(w, h),
            o.upright_height(w, h),
            o.inverse(),
        ) == bytes,
{
    if !(o is TopLeft) {
        let uw = o.upright_width(w, h);
        let uh = o.upright_height(w, h);
        let back = o.inverse();
        assert(uw * uh == w * h) by (nonlinear_arith)
            requires
                (uw == w && uh == h) || (uw == h && uh == w),
        ;
        assert(0 <= w * h) by (nonlinear_arith)
            requires
                0 <= w,
                0 <= h,
        ;
        let n = (w * h) as nat;
        let first = o.map(w, h);
        let second = back.map(uw, uh);
        assert forall|p: int| 0 <= p < n implies 0 <= #[trigger] second(p) < n by {
            orientation_in_range(back, uw, uh, p);
        }
        crate::grid::gathers_compose(bytes, size, n, first, n, second);
        let both = |p: int| first(second(p));
        assert forall|p: int| 0 <= p < n implies #[trigger] both(p) == p by {
            orientation_in_range(back, uw, uh, p);
            // The inverse map's image of p, in upright coordinates.
            let bw = back.upright_width(uw, uh);
            assert(bw == w);
            let (x, y) = (p % w, p / w);
            let (sx, sy) = back.source_of(uw, uh, x, y);
            crate::grid::lemma_pixel_index(sx, sy, uw, uh);
            crate::grid::lemma_coordinates(p, w, h);
            assert(second(p) == sy * uw + sx);
            assert(o.source_of(w, h, sx, sy) == (x, y));
        }
        crate::grid::gather_identity(bytes, size, n, both);
    }
}

/// An orientation puts the stored image where its name says: the first stored row
/// lies along the side that is named first, and the first stored column along the
/// side that is named second.
pub proof fn an_orientation_is_named_by_its_sides(o: Orientation, w: int, h: int, dx: int, dy: int)
    requires
        0 < w,
        0 < h,
        0 <= dx < o.upright_width(w, h),
        0 <= dy < o.upright_height(w, h),
    ensures
        ({
            let (sx, sy) = o.source_of(w, h, dx, dy);
            let (dw, dh) = (o.upright_width(w, h), o.upright_height(w, h));
            let (top, bottom, left, right) = (dy == 0, dy == dh - 1, dx == 0, dx == dw - 1);
            match o {
                Orientation::TopLeft => (sy == 0 <==> top) && (sx == 0 <==> left),
                Orientation::TopRight => (sy == 0 <==> top) && (sx == 0 <==> right),
                Orientation::BottomRight => (sy == 0 <==> bottom) && (sx == 0 <==> right),
                Orientation::BottomLeft => (sy == 0 <==> bottom) && (sx == 0 <==> left),
                Orientation::LeftTop => (sy == 0 <==> left) && (sx == 0 <==> top),
                Orientation::RightTop => (sy == 0 <==> right) && (sx == 0 <==> top),
                Orientation::RightBottom => (sy == 0 <==> right) && (sx == 0 <==> bottom),
                Orientation::LeftBottom => (sy == 0 <==> left) && (sx == 0 <==> bottom),
            }
        }),
        o.upright_width(w, h) * o.upright_height(w, h) == w * h,
{
    assert(w * h == h * w) by (nonlinear_arith);
}

/// An upright pixel is a stored pixel, whole: all of its bytes come from the one
/// place that the orientation names for it.
pub proof fn an_upright_pixel_is_a_stored_pixel(
    bytes: Seq<u8>,
    size: nat,
    w: int,
    h: int,
    o: Orientation,
    dx: int,
    dy: int,
    k: int,
)
    requires
        0 < size,
        bytes.len() == size * (w * h) as nat,
        0 < w,
        0 < h,
        0 <= dx < o.upright_width(w, h),
        0 <= dy < o.upright_height(w, h),
        0 <= k < size,
    ensures
        ({
            let (sx, sy) = o.source_of(w, h, dx, dy);
            upright(bytes, size, w, h, o)[size * (dy * o.upright_width(w, h) + dx) + k]
                == bytes[size * (sy * w + sx) + k]
        }),
{
    let (dw, dh) = (o.upright_width(w, h), o.upright_height(w, h));
    let p = dy * dw + dx;
    assert(dw * dh == w * h) by (nonlinear_arith)
        requires
            (dw == w && dh == h) || (dw == h && dh == w),
    ;
    crate::grid::lemma_pixel_index(dx, dy, dw, dh);
    orientation_in_range(o, w, h, p);
    if !(o is TopLeft) {
        let n = (w * h) as nat;
        crate::grid::gathered_pixel(bytes, size, n, o.map(w, h), p, k);
    }
}

} // verus!
