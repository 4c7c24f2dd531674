//! Coverage fields and regions: what a selection, a layer mask and a damage
//! rectangle are made of.
use vstd::prelude::*;

verus! {

/// A rectangle on the canvas, in pixels. The origin may lie off the canvas.
#[derive(Debug, Clone, Copy, PartialEq, Eq, Structural)]
pub struct Region {
    pub x: i32,
    pub y: i32,
    pub w: u32,
    pub h: u32,
}

impl Region {
    /// Whether the pixel at column `px` of row `py` lies in the region.
    pub open spec fn has(self, px: int, py: int) -> bool {
        self.x <= px < self.x + self.w && self.y <= py < self.y + self.h
    }

    /// Whether the region holds no pixel.
    pub open spec fn vacant(self) -> bool {
        self.w == 0 || self.h == 0
    }

    /// The region at `(x, y)` of extent `w × h`.
    pub fn new(x: i32, y: i32, w: u32, h: u32) -> (region: Region)
        ensures
            region == (Region { x, y, w, h }),
    {
        Region { x, y, w, h }
    }

    /// The pixels common to both regions, or `None` when there is none.
    pub fn intersect(self, other: Region) -> (common: Option<Region>)
        ensures
            match common {
                Some(r) => !r.vacant() && forall|px: int, py: int|
                    #![trigger r.has(px, py)]
                    r.has(px, py) <==> self.has(px, py) && other.has(px, py),
                None => forall|px: int, py: int|
                    #![trigger self.has(px, py)]
                    !(self.has(px, py) && other.has(px, py)),
            },
            match common {
                Some(r) => r.x == (if self.x >= other.x { self.x } else { other.x }) && r.y == (if self.y >= other.y {
                    self.y
                } else {
                    other.y
                }),
                None => true,
            },
    {
        let x0: i64 = if self.x >= other.x { self.x as i64 } else { other.x as i64 };
        let y0: i64 = if self.y >= other.y { self.y as i64 } else { other.y as i64 };
        let ar: i64 = self.x as i64 + self.w as i64;
        let br: i64 = other.x as i64 + other.w as i64;
        let ab: i64 = self.y as i64 + self.h as i64;
        let bb: i64 = other.y as i64 + other.h as i64;
        let x1: i64 = if ar <= br { ar } else { br };
        let y1: i64 = if ab <= bb { ab } else { bb };
        if x1 <= x0 || y1 <= y0 {
            None
        } else {
            Some(Region { x: x0 as i32, y: y0 as i32, w: (x1 - x0) as u32, h: (y1 - y0) as u32 })
        }
    }
}

/// A rectangle of pixels inside an extent.
#[derive(Debug, Clone, Copy, PartialEq, Eq, Structural)]
pub struct Frame {
    pub x: u32,
    pub y: u32,
    pub w: u32,
    pub h: u32,
}

impl Frame {
    /// Whether the pixel at column `px` of row `py` lies in the frame.
    pub open spec fn has(self, px: int, py: int) -> bool {
        self.x <= px < self.x + self.w && self.y <= py < self.y + self.h
    }
}

/// A canvas-extent grayscale coverage field: one byte per pixel, row-major,
/// 0 for "not at all" to 255 for "fully".
#[derive(Debug)]
pub struct SelectionCoverage {
    width: u32,
    height: u32,
    data: Vec<u8>,
}

impl SelectionCoverage {
    #[verifier::type_invariant]
    spec fn consistent(self) -> bool {
        self.data@.len() == self.width * self.height
    }

    /// The field's width in pixels.
    pub closed spec fn columns(self) -> u32 {
        self.width
    }

    /// The field's height in pixels.
    pub closed spec fn rows(self) -> u32 {
        self.height
    }

    /// The field's bytes.
    pub closed spec fn cells(self) -> Seq<u8> {
        self.data@
    }

    /// The byte count that the extent calls for.
    pub open spec fn sized(self) -> bool {
        self.cells().len() == self.columns() * self.rows()
    }

    /// The coverage at column `x` of row `y`.
    pub open spec fn at(self, x: int, y: int) -> u8 {
        self.cells()[y * self.columns() + x]
    }

    /// Whether every pixel is fully covered.
    pub open spec fn all_one(self) -> bool {
        forall|i: int| 0 <= i < self.cells().len() ==> #[trigger] self.cells()[i] == 255
    }

    /// Whether no pixel is covered at all.
    pub open spec fn all_zero(self) -> bool {
        forall|i: int| 0 <= i < self.cells().len() ==> #[trigger] self.cells()[i] == 0
    }

    /// Wrap `data` as a field of `width × height`; `None` when the byte count
    /// does not match the extent.
    pub fn from_data(width: u32, height: u32, data: Vec<u8>) -> (field: Option<SelectionCoverage>)
        ensures
            field is Some <==> data@.len() == width * height,
            field matches Some(f) ==> f.columns() == width && f.rows() == height && f.cells() == data@
                && f.sized(),
    {
        proof {
            assert(width * height <= u64::MAX) by (nonlinear_arith)
                requires
                    0 <= width <= u32::MAX,
                    0 <= height <= u32::MAX,
            ;
        }
        let want: u64 = (width as u64) * (height as u64);
        if data.len() as u64 == want {
            Some(SelectionCoverage { width, height, data })
        } else {
            None
        }
    }

    /// The fully covered field of an extent whose pixel count fits memory.
    pub fn full(width: u32, height: u32) -> (field: SelectionCoverage)
        requires
            width * height <= usize::MAX,
        ensures
            field.columns() == width,
            field.rows() == height,
            field.all_one(),
            field.sized(),
    {
        let n: usize = (width as usize) * (height as usize);
        let data: Vec<u8> = vec![255u8; n];
        SelectionCoverage { width, height, data }
    }

    /// The field's width in pixels.
    pub fn width(&self) -> (w: u32)
        ensures
            w == self.columns(),
            self.sized(),
    {
        proof {
            use_type_invariant(self);
        }
        self.width
    }

    /// The field's height in pixels.
    pub fn height(&self) -> (h: u32)
        ensures
            h == self.rows(),
            self.sized(),
    {
        proof {
            use_type_invariant(self);
        }
        self.height
    }

    /// The field's bytes.
    pub fn data(&self) -> (data: &[u8])
        ensures
            data@ == self.cells(),
            self.sized(),
    {
        proof {
            use_type_invariant(self);
        }
        self.data.as_slice()
    }

    /// The coverage at column `x` of row `y`.
    pub fn coverage_at(&self, x: u32, y: u32) -> (c: u8)
        requires
            x < self.columns(),
            y < self.rows(),
        ensures
            c == self.at(x as int, y as int),
    {
        proof {
            use_type_invariant(self);
            crate::grid::lemma_pixel_index(
                x as int,
                y as int,
                self.columns() as int,
                self.rows() as int,
            );
            assert(0 <= y * self.width <= y * self.width + x) by (nonlinear_arith)
                requires
                    0 <= x,
                    0 <= y,
                    0 <= self.width,
            ;
        }
        let len: usize = self.data.len();
        self.data[y as usize * self.width as usize + x as usize]
    }

    /// Whether the pixel at column `x` of row `y` is covered at all.
    pub open spec fn touches(self, x: int, y: int) -> bool {
        0 <= x < self.columns() && 0 <= y < self.rows() && self.at(x, y) > 0
    }

    /// Whether a frame is the bounding box of the covered pixels: it holds them
    /// all, and each of its four edges touches one.
    pub open spec fn bounded_by(self, f: Frame) -> bool {
        &&& f.w > 0
        &&& f.h > 0
        &&& f.x + f.w <= self.columns()
        &&& f.y + f.h <= self.rows()
        &&& forall|x: int, y: int| #[trigger] self.touches(x, y) ==> f.has(x, y)
        &&& exists|y: int| #[trigger] self.touches(f.x as int, y)
        &&& exists|y: int| #[trigger] self.touches(f.x + f.w - 1, y)
        &&& exists|x: int| #[trigger] self.touches(x, f.y as int)
        &&& exists|x: int| #[trigger] self.touches(x, f.y + f.h - 1)
    }

    /// The bounding box of the covered pixels, or `None` when nothing is
    /// covered.
    pub fn bounds(&self) -> (frame: Option<Frame>)
        ensures
            match frame {
                Some(f) => self.bounded_by(f),
                None => forall|x: int, y: int| !(#[trigger] self.touches(x, y)),
            },
    {
        proof {
            use_type_invariant(self);
        }
        let (w, h): (u32, u32) = (self.width, self.height);
        let mut found: Option<(u32, u32, u32, u32)> = None;
        let ghost mut left: (int, int) = (0, 0);
        let ghost mut right: (int, int) = (0, 0);
        let ghost mut top: (int, int) = (0, 0);
        let ghost mut bottom: (int, int) = (0, 0);
        let mut y: u32 = 0;
        while y < h
            invariant
                w == self.columns(),
                h == self.rows(),
                y <= h,
                self.sized(),
                match found {
                    None => forall|px: int, py: int| #[trigger]
                        self.touches(px, py) ==> py >= y,
                    Some((x0, y0, x1, y1)) => {
                        &&& x0 <= x1 < w
                        &&& y0 <= y1 < h
                        &&& forall|px: int, py: int| #[trigger]
                            self.touches(px, py) && py < y ==> x0 <= px <= x1 && y0 <= py <= y1
                        &&& self.touches(left.0, left.1) && left.0 == x0
                        &&& self.touches(right.0, right.1) && right.0 == x1
                        &&& self.touches(top.0, top.1) && top.1 == y0
                        &&& self.touches(bottom.0, bottom.1) && bottom.1 == y1
                    },
                },
            decreases h - y,
        {
            let mut x: u32 = 0;
            while x < w
                invariant
                    w == self.columns(),
                    h == self.rows(),
                    y < h,
                    x <= w,
                    self.sized(),
                    match found {
                        None => forall|px: int, py: int| #[trigger]
                            self.touches(px, py) ==> py > y || (py == y && px >= x),
                        Some((x0, y0, x1, y1)) => {
                            &&& x0 <= x1 < w
                            &&& y0 <= y1 < h
                            &&& forall|px: int, py: int| #[trigger]
                                self.touches(px, py) && (py < y || (py == y && px < x)) ==> x0
                                    <= px <= x1 && y0 <= py <= y1
                            &&& self.touches(left.0, left.1) && left.0 == x0
                            &&& self.touches(right.0, right.1) && right.0 == x1
                            &&& self.touches(top.0, top.1) && top.1 == y0
                            &&& self.touches(bottom.0, bottom.1) && bottom.1 == y1
                        },
                    },
                decreases w - x,
            {
                if self.coverage_at(x, y) > 0 {
                    let ghost here = (x as int, y as int);
                    proof {
                        assert(self.touches(x as int, y as int));
                    }
                    match found {
                        None => {
                            found = Some((x, y, x, y));
                            proof {
                                left = here;
                                right = here;
                                top = here;
                                bottom = here;
                            }
                        },
                        Some((x0, y0, x1, y1)) => {
                            let nx0: u32 = if x < x0 {
                                x
                            } else {
                                x0
                            };
                            let nx1: u32 = if x > x1 {
                                x
                            } else {
                                x1
                            };
                            let ny1: u32 = if y > y1 {
                                y
                            } else {
                                y1
                            };
                            let ny0: u32 = if y < y0 {
                                y
                            } else {
                                y0
                            };
                            found = Some((nx0, ny0, nx1, ny1));
                            proof {
                                if x < x0 {
                                    left = here;
                                }
                                if x > x1 {
                                    right = here;
                                }
                                if y > y1 {
                                    bottom = here;
                                }
                                if y < y0 {
                                    top = here;
                                }
                            }
                        },
                    }
                }
                x = x + 1;
            }
            y = y + 1;
        }
        match found {
            None => None,
            Some((x0, y0, x1, y1)) => {
                let f: Frame = Frame { x: x0, y: y0, w: x1 - x0 + 1, h: y1 - y0 + 1 };
                proof {
                    assert(self.touches(f.x as int, left.1));
                    assert(self.touches(f.x + f.w - 1, right.1));
                    assert(self.touches(top.0, f.y as int));
                    assert(self.touches(bottom.0, f.y + f.h - 1));
                }
                Some(f)
            },
        }
    }

    /// Whether every pixel is fully covered.
    pub fn is_all_one(&self) -> (all: bool)
        ensures
            all <==> self.all_one(),
    {
        let mut i: usize = 0;
        while i < self.data.len()
            invariant
                i <= self.data@.len(),
                forall|j: int| 0 <= j < i ==> self.data@[j] == 255,
            decreases self.data@.len() - i,
        {
            if self.data[i] != 255 {
                assert(self.cells()[i as int] != 255);
                return false;
            }
            i = i + 1;
        }
        true
    }

    /// Whether no pixel is covered at all.
    pub fn is_all_zero(&self) -> (none: bool)
        ensures
            none <==> self.all_zero(),
    {
        let mut i: usize = 0;
        while i < self.data.len()
            invariant
                i <= self.data@.len(),
                forall|j: int| 0 <= j < i ==> self.data@[j] == 0,
            decreases self.data@.len() - i,
        {
            if self.data[i] != 0 {
                assert(self.cells()[i as int] != 0);
                return false;
            }
            i = i + 1;
        }
        true
    }
}

impl Clone for SelectionCoverage {
    fn clone(&self) -> (copy: Self)
        ensures
            copy.columns() == self.columns(),
            copy.rows() == self.rows(),
            copy.cells() == self.cells(),
    {
        proof {
            use_type_invariant(self);
        }
        let data: Vec<u8> = self.data.clone();
        SelectionCoverage { width: self.width, height: self.height, data }
    }
}

/// A bounding box is the smallest: it lies in every frame that holds all the covered
/// pixels, and it holds each of them.
pub proof fn a_bounding_box_is_the_smallest(c: SelectionCoverage, f: Frame, g: Frame, x: int, y: int)
    requires
        c.bounded_by(f),
        forall|px: int, py: int|
            0 <= px < c.columns() && 0 <= py < c.rows() && c.cells()[py * c.columns() + px] > 0
                ==> #[trigger] g.has(px, py),
        0 <= x < c.columns(),
        0 <= y < c.rows(),
    ensures
        g.x <= f.x && f.x + f.w <= g.x + g.w,
        g.y <= f.y && f.y + f.h <= g.y + g.h,
        c.cells()[y * c.columns() + x] > 0 ==> f.x <= x < f.x + f.w && f.y <= y < f.y + f.h,
{
    let l = choose|y: int| #[trigger] c.touches(f.x as int, y);
    assert(g.has(f.x as int, l));
    let r = choose|y: int| #[trigger] c.touches(f.x + f.w - 1, y);
    assert(g.has(f.x + f.w - 1, r));
    let t = choose|x: int| #[trigger] c.touches(x, f.y as int);
    assert(g.has(t, f.y as int));
    let b = choose|x: int| #[trigger] c.touches(x, f.y + f.h - 1);
    assert(g.has(b, f.y + f.h - 1));
    if c.cells()[y * c.columns() + x] > 0 {
        assert(c.touches(x, y));
        assert(f.has(x, y));
    }
}

} // verus!
