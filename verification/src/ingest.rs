//! Decoded images: how container bytes become straight RGBA pixels, and the
//! windowing and tone-curve passes that need no device.
//!
//! Running a codec, a PSD reader or a colour engine is the host's work. What
//! is here is everything around it: which decoder a container calls for, which
//! sources are admitted, how samples widen to RGBA, how EXIF orientation turns
//! the pixels upright, and how the result is cut and curved.
use crate::coverage::SelectionCoverage;
use crate::display::DisplayTreatment;
use crate::errors::IngestError;
use crate::pixels::Pixels;
use crate::strings::{push_decimal, push_len};
use vstd::prelude::*;

verus! {

/// One decoded image.
#[derive(Debug)]
pub struct DecodedImage {
    pub width: u32,
    pub height: u32,
    /// Tightly packed straight RGBA, row-major.
    pub rgba: Pixels,
    /// What the display transform did at ingest.
    pub display: DisplayTreatment,
    /// The source carried 16 bits per channel and was reduced to 8. A lossy
    /// step is a state to state, not one to hide.
    pub depth_reduced: bool,
}

impl Clone for DecodedImage {
    fn clone(&self) -> (copy: Self)
        ensures
            copy == *self,
    {
        DecodedImage {
            width: self.width,
            height: self.height,
            rgba: self.rgba.clone(),
            display: self.display,
            depth_reduced: self.depth_reduced,
        }
    }
}

/// The part of `[start, start + len)` that lies below `extent`, as a length.
pub open spec fn clipped(start: int, len: int, extent: int) -> int {
    if start >= extent {
        0
    } else if start + len <= extent {
        len
    } else {
        extent - start
    }
}

/// Pixel `p` of a window of rows of `tw` pixels whose corner is `(x, y)` in an
/// image with rows of `w` pixels.
pub open spec fn window_map(w: int, x: int, y: int, tw: int) -> spec_fn(int) -> int {
    |p: int| (y + p / tw) * w + x + p % tw
}

/// The window `(x, y, w, h)` of an 8-bit buffer with extent `iw × ih`, clipped
/// to the extent: its bytes and its own extent, or nothing at all when the
/// window misses the image.
pub open spec fn window(
    bytes: Seq<u8>,
    iw: int,
    ih: int,
    x: int,
    y: int,
    w: int,
    h: int,
) -> (Seq<u8>, int, int) {
    let tw = clipped(x, w, iw);
    let th = clipped(y, h, ih);
    if tw == 0 || th == 0 {
        (Seq::empty(), 0, 0)
    } else {
        (crate::grid::gathered(bytes, 4, (tw * th) as nat, window_map(iw, x, y, tw)), tw, th)
    }
}

fn clip(start: u32, len: u32, extent: u32) -> (n: u32)
    ensures
        n == clipped(start as int, len as int, extent as int),
        start + n <= extent || n == 0,
{
    if start >= extent {
        0
    } else if len <= extent - start {
        len
    } else {
        extent - start
    }
}

/// Cut the window `(x, y, w, h)`, clipped to the extent, out of an RGBA8
/// buffer of extent `iw × ih`.
pub fn cut_window(bytes: &[u8], iw: u32, ih: u32, x: u32, y: u32, w: u32, h: u32) -> (cut: (
    Vec<u8>,
    u32,
    u32,
))
    requires
        bytes@.len() == iw * ih * 4,
    ensures
        (cut.0@, cut.1 as int, cut.2 as int) == window(
            bytes@,
            iw as int,
            ih as int,
            x as int,
            y as int,
            w as int,
            h as int,
        ),
{
    let tw: u32 = clip(x, w, iw);
    let th: u32 = clip(y, h, ih);
    if tw == 0 || th == 0 {
        return (Vec::new(), 0, 0);
    }
    let len: usize = bytes.len();
    let ghost map = window_map(iw as int, x as int, y as int, tw as int);
    proof {
        assert(tw * th <= iw * ih) by (nonlinear_arith)
            requires
                0 < tw <= iw,
                0 < th <= ih,
        ;
        assert forall|p: int| 0 <= p < tw * th implies 0 <= #[trigger] map(p) && 4 * map(p) + 4
            <= bytes@.len() by {
            window_map_in_range(iw as int, ih as int, x as int, y as int, tw as int, th as int, p);
        }
    }
    let (iwz, xz, yz, twz): (usize, usize, usize, usize) = (
        iw as usize,
        x as usize,
        y as usize,
        tw as usize,
    );
    let n: usize = twz * (th as usize);
    let pick = |p: usize| -> (q: Option<usize>)
        requires
            p < n,
            n == tw * th,
            0 < tw <= iw,
            0 < th <= ih,
            x + tw <= iw,
            y + th <= ih,
            iwz == iw,
            xz == x,
            yz == y,
            twz == tw,
            len == iw * ih * 4,
        ensures
            q == Some((window_map(iw as int, x as int, y as int, tw as int)(p as int)) as usize),
            0 <= window_map(iw as int, x as int, y as int, tw as int)(p as int) <= usize::MAX,
        {
            proof {
                window_map_in_range(
                    iw as int,
                    ih as int,
                    x as int,
                    y as int,
                    tw as int,
                    th as int,
                    p as int,
                );
                assert(0 <= (y + p as int / tw as int) * iw) by (nonlinear_arith)
                    requires
                        0 <= y,
                        0 <= p as int / tw as int,
                        0 <= iw,
                ;
            }
            Some((yz + p / twz) * iwz + xz + p % twz)
        };
    let out: Vec<u8> = crate::grid::gather(bytes, 4, n, pick, Ghost(map));
    (out, tw, th)
}

/// A window's map stays inside the image.
pub proof fn window_map_in_range(iw: int, ih: int, x: int, y: int, tw: int, th: int, p: int)
    requires
        0 <= x,
        0 <= y,
        0 < tw,
        0 < th,
        x + tw <= iw,
        y + th <= ih,
        0 <= p < tw * th,
    ensures
        0 <= window_map(iw, x, y, tw)(p) < iw * ih,
        0 <= p / tw < th,
        0 <= p % tw < tw,
{
    crate::grid::lemma_coordinates(p, tw, th);
    crate::grid::lemma_pixel_index(x + p % tw, y + p / tw, iw, ih);
}

/// The byte at channel `k` of column `i` of row `j` of a window is the image's
/// byte at that channel, `x` columns and `y` rows further on.
pub proof fn window_is_exact(
    bytes: Seq<u8>,
    iw: int,
    ih: int,
    x: int,
    y: int,
    w: int,
    h: int,
    i: int,
    j: int,
    k: int,
)
    requires
        bytes.len() == iw * ih * 4,
        0 <= iw,
        0 <= ih,
        0 <= x,
        0 <= y,
        0 <= w,
        0 <= h,
        0 <= i < window(bytes, iw, ih, x, y, w, h).1,
        0 <= j < window(bytes, iw, ih, x, y, w, h).2,
        0 <= k < 4,
    ensures
        ({
            let (cut, tw, th) = window(bytes, iw, ih, x, y, w, h);
            cut[4 * (j * tw + i) + k] == bytes[4 * ((y + j) * iw + x + i) + k]
        }),
{
    let (cut, tw, th) = window(bytes, iw, ih, x, y, w, h);
    crate::grid::lemma_pixel_index(i, j, tw, th);
    let p = j * tw + i;
    window_map_in_range(iw, ih, x, y, tw, th, p);
    crate::grid::gathered_pixel(
        bytes,
        4,
        (tw * th) as nat,
        window_map(iw, x, y, tw),
        p,
        k,
    );
}

/// A window that spans the whole image is the image.
pub proof fn whole_window_is_the_image(bytes: Seq<u8>, iw: int, ih: int)
    requires
        bytes.len() == iw * ih * 4,
        0 < iw,
        0 < ih,
    ensures
        window(bytes, iw, ih, 0, 0, iw, ih) == (bytes, iw, ih),
{
    let map = window_map(iw, 0, 0, iw);
    assert(0 < iw * ih) by (nonlinear_arith)
        requires
            0 < iw,
            0 < ih,
    ;
    assert forall|p: int| 0 <= p < iw * ih implies #[trigger] map(p) == p by {
        crate::grid::lemma_coordinates(p, iw, ih);
    }
    crate::grid::gather_identity(bytes, 4, (iw * ih) as nat, map);
}

/// The sentence for a buffer whose length does not match its extent.
pub open spec fn mis_sized(
    what: Seq<char>,
    len: nat,
    between: Seq<char>,
    width: u32,
    by: Seq<char>,
    height: u32,
    want: nat,
) -> Seq<char> {
    what + crate::strings::decimal(len) + between + crate::strings::decimal(width as nat) + by
        + crate::strings::decimal(height as nat) + " (expected "@ + crate::strings::decimal(want)
        + ")"@
}

/// Builds the sentence of a mis-sized buffer.
pub fn mis_sized_text(
    what: &str,
    len: usize,
    between: &str,
    width: u32,
    by: &str,
    height: u32,
    want: u128,
) -> (text: String)
    ensures
        text@ == mis_sized(what@, len as nat, between@, width, by@, height, want as nat),
{
    let mut s: String = what.to_owned();
    push_len(&mut s, len);
    s.append(between);
    push_decimal(&mut s, width as u128);
    s.append(by);
    push_decimal(&mut s, height as u128);
    s.append(" (expected ");
    push_decimal(&mut s, want);
    s.append(")");
    s
}

/// The byte count of a canvas at `stride` bytes per pixel.
pub fn canvas_bytes(width: u32, height: u32, stride: usize) -> (n: u128)
    requires
        stride <= 8,
    ensures
        n == width * height * stride,
{
    proof {
        assert(width * height <= 0xffff_fffe_0000_0001) by (nonlinear_arith)
            requires
                0 <= width <= 0xffff_ffff,
                0 <= height <= 0xffff_ffff,
        ;
        assert(width * height * stride <= 8 * 0xffff_fffe_0000_0001) by (nonlinear_arith)
            requires
                0 <= width * height <= 0xffff_fffe_0000_0001,
                0 <= stride <= 8,
        ;
    }
    (width as u128) * (height as u128) * (stride as u128)
}

impl DecodedImage {
    /// Whether the buffer holds exactly the image's pixels.
    pub open spec fn sized(self) -> bool {
        self.rgba.covers(self.width, self.height)
    }

    /// The image's 8-bit view.
    pub open spec fn bytes8(self) -> Seq<u8> {
        self.rgba.narrow()
    }

    /// Register a pre-decoded straight RGBA8 buffer. `bytes` must be exactly
    /// `width·height·4` bytes; anything else is refused, never a torn image.
    pub fn from_rgba8(width: u32, height: u32, bytes: Vec<u8>) -> (image: Result<
        DecodedImage,
        IngestError,
    >)
        ensures
            image is Ok <==> bytes@.len() == width * height * 4,
            image matches Ok(i) ==> i.width == width && i.height == height && i.rgba.stored()
                == bytes@ && i.rgba.sample_depth() is U8 && i.display is AssumedSrgb
                && !i.depth_reduced && i.sized(),
            image matches Err(e) ==> e.is_decode(
                mis_sized(
                    "ingest_rgba8: "@,
                    bytes@.len(),
                    " bytes for "@,
                    width,
                    "x"@,
                    height,
                    (width * height * 4) as nat,
                ),
            ),
    {
        let expected: u128 = canvas_bytes(width, height, 4);
        if bytes.len() as u128 != expected {
            return Err(
                IngestError::Decode(
                    mis_sized_text(
                        "ingest_rgba8: ",
                        bytes.len(),
                        " bytes for ",
                        width,
                        "x",
                        height,
                        expected,
                    ),
                ),
            );
        }
        Ok(
            DecodedImage {
                width,
                height,
                rgba: Pixels::from_vec(bytes),
                display: DisplayTreatment::AssumedSrgb,
                depth_reduced: false,
            },
        )
    }

    /// The image a PSD's merged composite becomes. The composite surfaces no
    /// profile, so the treatment is stated as assumed.
    pub fn from_psd_composite(
        width: u32,
        height: u32,
        rgba: Vec<u8>,
        depth_reduced: bool,
    ) -> (image: DecodedImage)
        ensures
            image.width == width,
            image.height == height,
            image.rgba.stored() == rgba@,
            image.rgba.sample_depth() is U8,
            image.display is AssumedSrgb,
            image.depth_reduced == depth_reduced,
    {
        DecodedImage {
            width,
            height,
            rgba: Pixels::from_vec(rgba),
            display: DisplayTreatment::AssumedSrgb,
            depth_reduced,
        }
    }

    /// Cut a tile window `(x, y, w, h)` out of the image as tightly packed
    /// RGBA8, clipped to the image extent: the bytes and the clipped extent,
    /// or an empty buffer with `(0, 0)` when the window misses the image.
    pub fn tile_window_rgba8(&self, x: u32, y: u32, w: u32, h: u32) -> (cut: (Vec<u8>, u32, u32))
        requires
            self.sized(),
        ensures
            (cut.0@, cut.1 as int, cut.2 as int) == window(
                self.bytes8(),
                self.width as int,
                self.height as int,
                x as int,
                y as int,
                w as int,
                h as int,
            ),
    {
        proof {
            narrow_is_sized(self.rgba, self.width, self.height);
        }
        let view = self.rgba.to_rgba8();
        cut_window(view.as_slice(), self.width, self.height, x, y, w, h)
    }
}

/// The 8-bit view of a canvas has four bytes per pixel.
pub proof fn narrow_is_sized(rgba: Pixels, w: u32, h: u32)
    requires
        rgba.covers(w, h),
    ensures
        rgba.narrow().len() == w * h * 4,
{
    let n = w * h;
    assert(w * h * 8 == n * 8);
    assert(w * h * 4 == n * 4);
}

/// The sentence of an empty crop.
pub open spec fn empty_crop(x: u32, y: u32, w: u32, h: u32, iw: u32, ih: u32) -> Seq<char> {
    "crop ("@ + crate::strings::decimal(x as nat) + ","@ + crate::strings::decimal(y as nat) + ","@
        + crate::strings::decimal(w as nat) + ","@ + crate::strings::decimal(h as nat)
        + ") is empty against "@ + crate::strings::decimal(iw as nat) + "x"@
        + crate::strings::decimal(ih as nat)
}

fn empty_crop_text(x: u32, y: u32, w: u32, h: u32, iw: u32, ih: u32) -> (text: String)
    ensures
        text@ == empty_crop(x, y, w, h, iw, ih),
{
    let mut s: String = "crop (".to_owned();
    push_decimal(&mut s, x as u128);
    s.append(",");
    push_decimal(&mut s, y as u128);
    s.append(",");
    push_decimal(&mut s, w as u128);
    s.append(",");
    push_decimal(&mut s, h as u128);
    s.append(") is empty against ");
    push_decimal(&mut s, iw as u128);
    s.append("x");
    push_decimal(&mut s, ih as u128);
    s
}

/// Whether an image is what a window cuts out of another, shown alike.
pub open spec fn crops(image: DecodedImage, x: u32, y: u32, w: u32, h: u32, c: DecodedImage) -> bool {
    let (bytes, cw, ch) = window(
        image.bytes8(),
        image.width as int,
        image.height as int,
        x as int,
        y as int,
        w as int,
        h as int,
    );
    &&& c.width == cw
    &&& c.height == ch
    &&& c.rgba.stored() == bytes
    &&& c.rgba.sample_depth() is U8
    &&& c.display == image.display
    &&& c.depth_reduced == (image.rgba.sample_depth() is U16)
}

/// Commit a crop: the integer rectangle `(x, y, w, h)`, clamped to the image,
/// as a new 8-bit image. An empty intersection is an error, never a zero
/// image. The crop inherits the display treatment; cutting a 16-bit image
/// reduces its depth and says so.
pub fn crop_rgba8(image: &DecodedImage, x: u32, y: u32, w: u32, h: u32) -> (cropped: Result<
    DecodedImage,
    IngestError,
>)
    requires
        image.sized(),
    ensures
        ({
            let (_, cw, ch) = window(
                image.bytes8(),
                image.width as int,
                image.height as int,
                x as int,
                y as int,
                w as int,
                h as int,
            );
            &&& cropped is Ok <==> cw > 0 && ch > 0
            &&& cropped matches Ok(c) ==> crops(*image, x, y, w, h, c) && c.sized()
            &&& cropped matches Err(e) ==> e.is_decode(
                empty_crop(x, y, w, h, image.width, image.height),
            )
        }),
{
    let (bytes, cw, ch) = image.tile_window_rgba8(x, y, w, h);
    if cw == 0 || ch == 0 {
        return Err(IngestError::Decode(empty_crop_text(x, y, w, h, image.width, image.height)));
    }
    proof {
        assert(cw * ch * 4 == 4 * (cw * ch)) by (nonlinear_arith);
    }
    Ok(
        DecodedImage {
            width: cw,
            height: ch,
            rgba: Pixels::from_vec(bytes),
            display: image.display,
            depth_reduced: image.rgba.is_16bit(),
        },
    )
}

/// A tone table applied to the colour bytes of a straight RGBA8 buffer. Alpha
/// bytes, and a trailing partial pixel, are never remapped.
pub open spec fn curved(pixels: Seq<u8>, lut: Seq<u8>) -> Seq<u8> {
    Seq::new(
        pixels.len(),
        |i: int|
            if i % 4 == 3 || i >= pixels.len() / 4 * 4 {
                pixels[i]
            } else {
                lut[pixels[i] as int]
            },
    )
}

/// `a` moved toward `b` by `m / 255`, rounded.
pub open spec fn mixed(a: u8, b: u8, m: u8) -> u8 {
    ((a * (255 - m) + b * m + 127) / 255) as u8
}

/// A tone table applied through a coverage field: each colour byte moves
/// toward its table entry by the pixel's coverage.
pub open spec fn curved_through(pixels: Seq<u8>, lut: Seq<u8>, cells: Seq<u8>) -> Seq<u8> {
    Seq::new(
        pixels.len(),
        |i: int|
            if i % 4 == 3 {
                pixels[i]
            } else {
                mixed(pixels[i], lut[pixels[i] as int], cells[i / 4])
            },
    )
}

/// Apply a 256-entry tone table to the RGB channels of a straight RGBA8 buffer
/// in place.
pub fn apply_curve_lut(pixels: &mut Vec<u8>, lut: &[u8; 256])
    ensures
        final(pixels)@ == curved(old(pixels)@, lut@),
{
    let ghost before = pixels@;
    let len: usize = pixels.len();
    let whole: usize = len / 4 * 4;
    let mut i: usize = 0;
    while i < whole
        invariant
            len == before.len(),
            whole == len / 4 * 4,
            i <= whole,
            pixels@.len() == len,
            forall|j: int| 0 <= j < i ==> pixels@[j] == #[trigger] curved(before, lut@)[j],
            forall|j: int| i <= j < len ==> pixels@[j] == before[j],
        decreases whole - i,
    {
        if i % 4 != 3 {
            let v: u8 = lut[pixels[i] as usize];
            pixels[i] = v;
        }
        i = i + 1;
    }
    proof {
        assert(pixels@ =~= curved(before, lut@));
    }
}

fn mix(a: u8, b: u8, m: u8) -> (v: u8)
    ensures
        v == mixed(a, b, m),
{
    proof {
        assert(a * (255 - m) + b * m <= 255 * 255) by (nonlinear_arith)
            requires
                0 <= a <= 255,
                0 <= b <= 255,
                0 <= m <= 255,
        ;
        assert(0 <= a * (255 - m) && 0 <= b * m) by (nonlinear_arith)
            requires
                0 <= a <= 255,
                0 <= b <= 255,
                0 <= m <= 255,
        ;
    }
    ((a as u16 * (255 - m as u16) + b as u16 * m as u16 + 127) / 255) as u8
}

/// [`apply_curve_lut`] under a selection: each pixel blends toward its mapped
/// value by the coverage there. A buffer that is not the coverage's extent is
/// curved without the mask.
pub fn apply_curve_lut_masked(pixels: &mut Vec<u8>, lut: &[u8; 256], coverage: &SelectionCoverage)
    ensures
        final(pixels)@ == (if old(pixels)@.len() == coverage.columns() * coverage.rows() * 4 {
            curved_through(old(pixels)@, lut@, coverage.cells())
        } else {
            curved(old(pixels)@, lut@)
        }),
{
    let ghost before = pixels@;
    let len: usize = pixels.len();
    let expected: u128 = canvas_bytes(coverage.width(), coverage.height(), 4);
    if len as u128 != expected {
        apply_curve_lut(pixels, lut);
        return;
    }
    let cells: &[u8] = coverage.data();
    let mut i: usize = 0;
    while i < len
        invariant
            len == before.len(),
            i <= len,
            pixels@.len() == len,
            cells@ == coverage.cells(),
            4 * cells@.len() == len,
            forall|j: int| 0 <= j < i ==> pixels@[j] == #[trigger] curved_through(
                before,
                lut@,
                cells@,
            )[j],
            forall|j: int| i <= j < len ==> pixels@[j] == before[j],
        decreases len - i,
    {
        if i % 4 != 3 {
            let v: u8 = mix(pixels[i], lut[pixels[i] as usize], cells[i / 4]);
            pixels[i] = v;
        }
        i = i + 1;
    }
    proof {
        assert(pixels@ =~= curved_through(before, lut@, cells@));
    }
}

/// Where the coverage is zero the curve leaves a pixel alone, where it is full
/// the pixel takes its table entry, and alpha never changes.
pub proof fn masked_curve_follows_the_coverage(
    pixels: Seq<u8>,
    lut: Seq<u8>,
    cells: Seq<u8>,
    i: int,
)
    requires
        pixels.len() == 4 * cells.len(),
        0 <= i < pixels.len(),
    ensures
        cells[i / 4] == 0 ==> curved_through(pixels, lut, cells)[i] == pixels[i],
        cells[i / 4] == 255 ==> curved_through(pixels, lut, cells)[i] == curved(pixels, lut)[i],
        i % 4 == 3 ==> curved_through(pixels, lut, cells)[i] == pixels[i],
{
    let a = pixels[i];
    let b = lut[a as int];
    assert(a * (255 - 0u8) + b * 0u8 == 255 * a) by (nonlinear_arith);
    assert(a * (255 - 255u8) + b * 255u8 == 255 * b) by (nonlinear_arith);
    assert(mixed(a, b, 0) == a);
    assert(mixed(a, b, 255) == b);
}

/// The identity table changes nothing.
pub proof fn identity_curve_is_a_passthrough(pixels: Seq<u8>, lut: Seq<u8>)
    requires
        forall|v: int| 0 <= v < 256 ==> #[trigger] lut[v] == v,
    ensures
        curved(pixels, lut) == pixels,
{
    assert(curved(pixels, lut) =~= pixels);
}

/// What a straightened crop needs.
#[derive(Debug, Clone, Copy, PartialEq, Eq, Structural)]
pub enum StraightenPath {
    /// No angle: the plain cut, without a device and without resampling.
    Cut,
    /// The image has to be rotated first.
    Rotate,
}

/// Whether a straightened crop has to rotate: exactly when the angle is not
/// zero.
pub fn straighten_path(degrees: crate::scalar::Scalar) -> (path: StraightenPath)
    ensures
        path is Cut <==> degrees.equals(crate::scalar::zero()),
{
    if degrees.same(crate::scalar::Scalar { bits: crate::scalar::ZERO }) {
        StraightenPath::Cut
    } else {
        StraightenPath::Rotate
    }
}

/// Finish a straightened crop: `rotated` holds the image turned upright about
/// the rectangle's centre, at the image's own extent, and the now axis-aligned
/// rectangle is cut out of it.
pub fn straighten_crop_rgba8(
    image: &DecodedImage,
    rotated: Vec<u8>,
    x: u32,
    y: u32,
    w: u32,
    h: u32,
) -> (cropped: Result<DecodedImage, IngestError>)
    ensures
        ({
            let (bytes, cw, ch) = window(
                rotated@,
                image.width as int,
                image.height as int,
                x as int,
                y as int,
                w as int,
                h as int,
            );
            let torn = rotated@.len() != image.width * image.height * 4;
            &&& cropped is Ok <==> !torn && cw > 0 && ch > 0
            &&& cropped matches Ok(c) ==> c.width == cw && c.height == ch && c.rgba.stored()
                == bytes && c.display is AssumedSrgb && !c.depth_reduced && c.sized()
            &&& cropped matches Err(e) ==> e.is_decode(
                if torn {
                    mis_sized(
                        "ingest_rgba8: "@,
                        rotated@.len(),
                        " bytes for "@,
                        image.width,
                        "x"@,
                        image.height,
                        (image.width * image.height * 4) as nat,
                    )
                } else {
                    empty_crop(x, y, w, h, image.width, image.height)
                },
            )
        }),
{
    match DecodedImage::from_rgba8(image.width, image.height, rotated) {
        Ok(upright) => crop_rgba8(&upright, x, y, w, h),
        Err(e) => Err(e),
    }
}

/// A mix is the nearest byte to the weighted mean of the two, and lies between
/// them: it moves from the first to the second as the weight grows.
pub proof fn a_mix_is_the_nearest_weighted_mean(a: u8, b: u8, m: u8, n: u8)
    requires
        m <= n,
    ensures
        -127 <= 255 * mixed(a, b, m) - (a * (255 - m) + b * m) <= 127,
        a <= b ==> a <= mixed(a, b, m) <= mixed(a, b, n) <= b,
        a >= b ==> a >= mixed(a, b, m) >= mixed(a, b, n) >= b,
        mixed(a, b, 0) == a,
        mixed(a, b, 255) == b,
{
    lemma_mix(a as int, b as int, m as int);
    lemma_mix(a as int, b as int, n as int);
    lemma_mix(a as int, b as int, 0);
    lemma_mix(a as int, b as int, 255);
    assert(a <= b ==> a * (255 - m) + b * m <= a * (255 - n) + b * n) by (nonlinear_arith)
        requires
            0 <= m <= n <= 255,
            0 <= a <= 255,
            0 <= b <= 255,
    ;
    assert(a >= b ==> a * (255 - m) + b * m >= a * (255 - n) + b * n) by (nonlinear_arith)
        requires
            0 <= m <= n <= 255,
            0 <= a <= 255,
            0 <= b <= 255,
    ;
}

proof fn lemma_mix(a: int, b: int, m: int)
    requires
        0 <= a <= 255,
        0 <= b <= 255,
        0 <= m <= 255,
    ensures
        a <= b ==> 255 * a <= a * (255 - m) + b * m <= 255 * b,
        a >= b ==> 255 * b <= a * (255 - m) + b * m <= 255 * a,
        m == 0 ==> a * (255 - m) + b * m == 255 * a,
        m == 255 ==> a * (255 - m) + b * m == 255 * b,
{
    assert(a * (255 - m) + b * m == 255 * a + (b - a) * m) by (nonlinear_arith);
    assert(a <= b ==> 0 <= (b - a) * m <= 255 * (b - a)) by (nonlinear_arith)
        requires
            0 <= m <= 255,
    ;
    assert(a >= b ==> 255 * (b - a) <= (b - a) * m <= 0) by (nonlinear_arith)
        requires
            0 <= m <= 255,
    ;
    assert(m == 0 ==> (b - a) * m == 0) by (nonlinear_arith);
    assert(m == 255 ==> (b - a) * m == 255 * (b - a)) by (nonlinear_arith);
}

/// A curve remaps colour by colour: a red, green or blue byte becomes the entry of
/// its own value, whatever is around it, and alpha stays.
pub proof fn a_curve_remaps_each_colour_by_its_value(
    pixels: Seq<u8>,
    lut: Seq<u8>,
    p: int,
    c: int,
)
    requires
        0 <= p < pixels.len() / 4,
        0 <= c < 4,
    ensures
        curved(pixels, lut).len() == pixels.len(),
        c < 3 ==> curved(pixels, lut)[4 * p + c] == lut[pixels[4 * p + c] as int],
        c == 3 ==> curved(pixels, lut)[4 * p + c] == pixels[4 * p + c],
{
    assert((4 * p + c) % 4 == c);
    assert(4 * p + c < pixels.len() / 4 * 4);
}

/// A window is what the rectangle has in common with the image: its extent is that
/// of the overlap, and there is none where they do not meet.
pub proof fn a_window_is_the_overlap(
    bytes: Seq<u8>,
    iw: int,
    ih: int,
    x: int,
    y: int,
    w: int,
    h: int,
)
    requires
        0 <= iw,
        0 <= ih,
        0 <= x,
        0 <= y,
        0 <= w,
        0 <= h,
    ensures
        ({
            let (cut, tw, th) = window(bytes, iw, ih, x, y, w, h);
            &&& 0 <= tw && 0 <= th
            &&& x < iw && y < ih && 0 < w && 0 < h ==> {
                &&& 0 < tw <= w && x + tw <= iw && (tw == w || x + tw == iw)
                &&& 0 < th <= h && y + th <= ih && (th == h || y + th == ih)
            }
            &&& x >= iw || y >= ih || w == 0 || h == 0 ==> tw == 0 || th == 0
            &&& cut.len() == 4 * (tw * th)
        }),
{
    let (cut, tw, th) = window(bytes, iw, ih, x, y, w, h);
    assert(tw == 0 || th == 0 ==> tw * th == 0) by (nonlinear_arith);
    assert(0 <= tw && 0 <= th ==> 0 <= tw * th) by (nonlinear_arith);
}

/// A crop shows the pixels at its own place, in its image's treatment: its pixel
/// `(i, j)` is the image's pixel `(x + i, y + j)`, and only a deep image loses depth.
pub proof fn a_crop_shows_its_own_place(
    image: DecodedImage,
    x: u32,
    y: u32,
    w: u32,
    h: u32,
    c: DecodedImage,
    i: int,
    j: int,
    k: int,
)
    requires
        crops(image, x, y, w, h, c),
        x < image.width,
        y < image.height,
        0 <= i < w,
        0 <= j < h,
        x + i < image.width,
        y + j < image.height,
        0 <= k < 4,
    ensures
        0 < c.width <= w && x + c.width <= image.width && (c.width == w || x + c.width == image.width),
        0 < c.height <= h && y + c.height <= image.height && (c.height == h || y + c.height
            == image.height),
        c.rgba.stored()[4 * (j * c.width + i) + k] == image.bytes8()[4 * ((y + j) * image.width + x + i)
            + k],
        c.display == image.display,
        c.depth_reduced <==> image.rgba.sample_depth() is U16,
{
    let (tw, th) = (c.width as int, c.height as int);
    let p = j * tw + i;
    crate::grid::lemma_pixel_index(i, j, tw, th);
    crate::grid::lemma_split(4, p, k);
    assert(0 <= (y + j) * image.width) by (nonlinear_arith)
        requires
            0 <= y + j,
            0 <= image.width,
    ;
    assert(0 <= 4 * p + k < 4 * (tw * th));
}

} // verus!
