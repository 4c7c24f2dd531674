//! Save-back: turning adjusted full-resolution pixels into what a file writer
//! encodes.
//!
//! The raster lane prepares one full-frame encode, optionally in the smallest
//! layout that loses nothing. The PSD lane decides between replacing the
//! channels of the file's single canvas-sized layer and flattening into a new
//! single-layer file, and lays out the merged composite. Entropy coding and
//! container writing are the host's work.
use crate::cmyk::InkOutcome;
use crate::display::ProfileOutcome;
use crate::errors::{undecodable, IngestError};
use crate::ingest::{canvas_bytes, mis_sized_text, DecodedImage};
use crate::pixels::SampleDepth;
use crate::source::{ChannelLayout, Format, Lane, PsdComposite, PsdRefusal, SourceInfo};
use crate::strings::{push_decimal, same_text};
use vstd::prelude::*;

verus! {

/// What the PSD save-back did to the layer structure.
#[derive(Debug, Clone, Copy, PartialEq, Eq, Structural)]
pub enum PsdSaveBackShape {
    /// The single canvas-sized content layer had its channels replaced; every
    /// other record is untouched.
    LayerReplaced,
    /// The composite was written into a new single-layer file. Any original
    /// layer structure is gone, and the caller must say so.
    Flattened,
}

impl PsdSaveBackShape {
    pub open spec fn sentence(self) -> Seq<char> {
        match self {
            PsdSaveBackShape::LayerReplaced => "the adjusted pixels were written into the file's single content layer (layer structure preserved)"@,
            PsdSaveBackShape::Flattened => "the adjusted composite was FLATTENED into a NEW single-layer PSD — any original layer structure is NOT in this file"@,
        }
    }

    /// The user-facing sentence.
    pub fn describe(self) -> (sentence: &'static str)
        ensures
            sentence@ == self.sentence(),
    {
        match self {
            PsdSaveBackShape::LayerReplaced => "the adjusted pixels were written into the file's single content layer (layer structure preserved)",
            PsdSaveBackShape::Flattened => "the adjusted composite was FLATTENED into a NEW single-layer PSD — any original layer structure is NOT in this file",
        }
    }
}

impl PsdSaveBackShape {
    /// The shape's name.
    pub open spec fn tag(self) -> Seq<char> {
        match self {
            PsdSaveBackShape::LayerReplaced => "layer-replaced"@,
            PsdSaveBackShape::Flattened => "flattened"@,
        }
    }

    /// What a save-back answers: the shape's name, then the sentence.
    pub fn answer(self) -> (text: String)
        ensures
            text@ == self.tag() + ": "@ + self.sentence(),
    {
        let mut text: String = match self {
            PsdSaveBackShape::LayerReplaced => "layer-replaced".to_owned(),
            PsdSaveBackShape::Flattened => "flattened".to_owned(),
        };
        text.append(": ");
        text.append(self.describe());
        text
    }
}

/// The raster formats the non-PSD lane offers.
#[derive(Debug, Clone, Copy, PartialEq, Eq, Structural)]
pub enum RasterFormat {
    Png,
    Jpeg,
}

/// The format a wire name stands for.
pub open spec fn raster_named(s: Seq<char>) -> Option<RasterFormat> {
    if s == "png"@ {
        Some(RasterFormat::Png)
    } else if s == "jpeg"@ || s == "jpg"@ {
        Some(RasterFormat::Jpeg)
    } else {
        None
    }
}

impl RasterFormat {
    /// Decode the wire name.
    pub fn from_wire(s: &str) -> (format: Option<RasterFormat>)
        ensures
            format == raster_named(s@),
    {
        if same_text(s, "png") {
            Some(RasterFormat::Png)
        } else if same_text(s, "jpeg") || same_text(s, "jpg") {
            Some(RasterFormat::Jpeg)
        } else {
            None
        }
    }

    /// The file name extension, with its dot.
    pub fn extension(self) -> (ext: &'static str)
        ensures
            ext@ == (match self {
                RasterFormat::Png => ".png"@,
                RasterFormat::Jpeg => ".jpg"@,
            }),
    {
        match self {
            RasterFormat::Png => ".png",
            RasterFormat::Jpeg => ".jpg",
        }
    }

    /// The media type.
    pub fn mime(self) -> (mime: &'static str)
        ensures
            mime@ == (match self {
                RasterFormat::Png => "image/png"@,
                RasterFormat::Jpeg => "image/jpeg"@,
            }),
    {
        match self {
            RasterFormat::Png => "image/png",
            RasterFormat::Jpeg => "image/jpeg",
        }
    }
}

/// The JPEG quality of the plain save-back lane.
pub const JPEG_QUALITY_DEFAULT: u8 = 90;

/// The smallest layout that holds a buffer without loss.
#[derive(Debug, Clone, Copy, PartialEq, Eq, Structural)]
pub enum LosslessShape {
    /// Every pixel is grey and opaque.
    Gray,
    /// Every pixel is grey, some are translucent.
    GrayA,
    /// Every pixel is opaque, some have colour.
    Rgb,
    /// Colour and translucency.
    Rgba,
}

/// Whether every whole pixel has equal colour channels.
pub open spec fn all_gray(rgba: Seq<u8>) -> bool {
    forall|p: int|
        0 <= p < rgba.len() / 4 ==> #[trigger] rgba[4 * p] == rgba[4 * p + 1] && rgba[4 * p]
            == rgba[4 * p + 2]
}

/// Whether every whole pixel is opaque.
pub open spec fn all_opaque(rgba: Seq<u8>) -> bool {
    forall|p: int| 0 <= p < rgba.len() / 4 ==> #[trigger] rgba[4 * p + 3] == 255
}

/// The smallest layout that holds `rgba` without loss.
pub open spec fn shape_of(rgba: Seq<u8>) -> LosslessShape {
    match (all_gray(rgba), all_opaque(rgba)) {
        (true, true) => LosslessShape::Gray,
        (true, false) => LosslessShape::GrayA,
        (false, true) => LosslessShape::Rgb,
        (false, false) => LosslessShape::Rgba,
    }
}

/// Classify a straight RGBA8 buffer. Every pixel is looked at: one coloured
/// pixel defeats the grey claim, one translucent pixel the opaque one.
pub fn lossless_shape(rgba: &[u8]) -> (shape: LosslessShape)
    ensures
        shape == shape_of(rgba@),
{
    let len: usize = rgba.len();
    let n: usize = len / 4;
    let mut gray: bool = true;
    let mut opaque: bool = true;
    let mut i: usize = 0;
    while i < n
        invariant
            len == rgba@.len(),
            n == len / 4,
            i <= n,
            gray <==> (forall|p: int|
                0 <= p < i ==> #[trigger] rgba@[4 * p] == rgba@[4 * p + 1] && rgba@[4 * p]
                    == rgba@[4 * p + 2]),
            opaque <==> (forall|p: int| 0 <= p < i ==> #[trigger] rgba@[4 * p + 3] == 255),
        decreases n - i,
    {
        let r: u8 = rgba[4 * i];
        if r != rgba[4 * i + 1] || r != rgba[4 * i + 2] {
            assert(!(rgba@[4 * (i as int)] == rgba@[4 * (i as int) + 1] && rgba@[4 * (i as int)]
                == rgba@[4 * (i as int) + 2]));
            gray = false;
        }
        if rgba[4 * i + 3] != 255 {
            assert(rgba@[4 * (i as int) + 3] != 255);
            opaque = false;
        }
        i = i + 1;
    }
    match (gray, opaque) {
        (true, true) => LosslessShape::Gray,
        (true, false) => LosslessShape::GrayA,
        (false, true) => LosslessShape::Rgb,
        (false, false) => LosslessShape::Rgba,
    }
}

/// A buffer reduced to a layout: only the channels the layout keeps.
pub open spec fn reduced(rgba: Seq<u8>, shape: LosslessShape) -> Seq<u8> {
    match shape {
        LosslessShape::Gray => Seq::new(rgba.len() / 4, |i: int| rgba[4 * i]),
        LosslessShape::GrayA => Seq::new(
            rgba.len() / 4 * 2,
            |i: int|
                if i % 2 == 0 {
                    rgba[i / 2 * 4]
                } else {
                    rgba[i / 2 * 4 + 3]
                },
        ),
        LosslessShape::Rgb => Seq::new(rgba.len() / 4 * 3, |i: int| rgba[i / 3 * 4 + i % 3]),
        LosslessShape::Rgba => rgba,
    }
}

/// The RGBA8 buffer that a decoder makes of a reduced one.
pub open spec fn restored(bytes: Seq<u8>, shape: LosslessShape) -> Seq<u8> {
    match shape {
        LosslessShape::Gray => crate::source::spread(
            bytes,
            crate::source::ChannelLayout::Gray,
            false,
        ),
        LosslessShape::GrayA => crate::source::spread(
            bytes,
            crate::source::ChannelLayout::GrayA,
            false,
        ),
        LosslessShape::Rgb => Seq::new(
            bytes.len() / 3 * 4,
            |i: int|
                if i % 4 == 3 {
                    255
                } else {
                    bytes[i / 4 * 3 + i % 4]
                },
        ),
        LosslessShape::Rgba => bytes,
    }
}

/// Reducing a buffer to its own shape loses nothing: what a decoder restores
/// is the buffer, bit for bit.
pub proof fn reduction_is_lossless(rgba: Seq<u8>)
    requires
        rgba.len() % 4 == 0,
    ensures
        restored(reduced(rgba, shape_of(rgba)), shape_of(rgba)) == rgba,
{
    let shape = shape_of(rgba);
    let back = restored(reduced(rgba, shape), shape);
    assert forall|i: int| 0 <= i < rgba.len() implies back[i] == rgba[i] by {
        let p = i / 4;
        assert(i == 4 * p + i % 4);
        if all_gray(rgba) {
            assert(rgba[4 * p] == rgba[4 * p + 1] && rgba[4 * p] == rgba[4 * p + 2]);
        }
        if all_opaque(rgba) {
            assert(rgba[4 * p + 3] == 255);
        }
        if shape is GrayA {
            assert((2 * p) / 2 == p && (2 * p + 1) / 2 == p && (2 * p) % 2 == 0 && (2 * p + 1) % 2
                == 1);
        }
        if shape is Rgb && i % 4 < 3 {
            let j = 3 * p + i % 4;
            assert(j / 3 == p && j % 3 == i % 4);
        }
    }
    assert(back =~= rgba);
}

fn reduce(rgba: &[u8], shape: LosslessShape) -> (bytes: Vec<u8>)
    ensures
        bytes@ == reduced(rgba@, shape),
{
    let len: usize = rgba.len();
    let n: usize = len / 4;
    let mut out: Vec<u8> = Vec::new();
    if matches!(shape, LosslessShape::Rgba) {
        out.extend_from_slice(rgba);
        proof {
            assert(out@ =~= rgba@);
        }
        return out;
    }
    let ghost goal = reduced(rgba@, shape);
    let mut i: usize = 0;
    while i < n
        invariant
            len == rgba@.len(),
            n == len / 4,
            i <= n,
            !(shape is Rgba),
            goal == reduced(rgba@, shape),
            out@.len() == (match shape {
                LosslessShape::Gray => i as int,
                LosslessShape::GrayA => 2 * i as int,
                _ => 3 * i as int,
            }),
            forall|j: int| 0 <= j < out@.len() ==> out@[j] == #[trigger] goal[j],
        decreases n - i,
    {
        match shape {
            LosslessShape::Gray => {
                out.push(rgba[4 * i]);
            },
            LosslessShape::GrayA => {
                out.push(rgba[4 * i]);
                out.push(rgba[4 * i + 3]);
            },
            _ => {
                out.push(rgba[4 * i]);
                out.push(rgba[4 * i + 1]);
                out.push(rgba[4 * i + 2]);
            },
        }
        i = i + 1;
    }
    proof {
        assert(out@ =~= goal);
    }
    out
}

/// A full-frame encode, ready for a codec.
#[derive(Debug)]
pub struct EncodeJob {
    pub format: RasterFormat,
    pub width: u32,
    pub height: u32,
    /// How `bytes` lays out its pixels.
    pub shape: LosslessShape,
    pub bytes: Vec<u8>,
    /// The JPEG quality, 1 to 100. PNG takes none.
    pub quality: u8,
}

/// A quality brought into JPEG's range.
pub open spec fn quality_in_range(q: u8) -> u8 {
    if q < 1 {
        1
    } else if q > 100 {
        100
    } else {
        q
    }
}

/// The refusal of a buffer that does not have the stated extent.
pub open spec fn bad_encode(len: nat, w: u32, h: u32) -> Seq<char> {
    crate::ingest::mis_sized("encode: "@, len, " bytes for "@, w, "x"@, h, (w * h * 4) as nat)
}

/// Prepare a raster encode with a quality and, for PNG, an optional lossless
/// reduction. The quality is clamped to JPEG's range, so that a caller's slider
/// never reaches the encoder as garbage.
pub fn encode_rgba8_opt(
    rgba: &[u8],
    width: u32,
    height: u32,
    format: RasterFormat,
    quality: u8,
    reduce_layout: bool,
) -> (job: Result<EncodeJob, IngestError>)
    ensures
        job is Ok <==> rgba@.len() == width * height * 4,
        job matches Err(e) ==> e.is_decode(bad_encode(rgba@.len(), width, height)),
        job matches Ok(j) ==> {
            &&& j.format == format
            &&& j.width == width
            &&& j.height == height
            &&& j.quality == quality_in_range(quality)
            &&& j.shape == (if reduce_layout && format is Png {
                shape_of(rgba@)
            } else {
                LosslessShape::Rgba
            })
            &&& j.bytes@ == reduced(rgba@, j.shape)
        },
{
    let expected: u128 = canvas_bytes(width, height, 4);
    if rgba.len() as u128 != expected {
        return Err(
            IngestError::Decode(
                mis_sized_text("encode: ", rgba.len(), " bytes for ", width, "x", height, expected),
            ),
        );
    }
    let quality: u8 = if quality < 1 {
        1
    } else if quality > 100 {
        100
    } else {
        quality
    };
    let shape: LosslessShape = if reduce_layout && matches!(format, RasterFormat::Png) {
        lossless_shape(rgba)
    } else {
        LosslessShape::Rgba
    };
    let bytes: Vec<u8> = reduce(rgba, shape);
    Ok(EncodeJob { format, width, height, shape, bytes, quality })
}

/// Prepare a plain raster encode: every channel, at the default quality.
pub fn encode_rgba8(rgba: &[u8], width: u32, height: u32, format: RasterFormat) -> (job: Result<
    EncodeJob,
    IngestError,
>)
    ensures
        job is Ok <==> rgba@.len() == width * height * 4,
        job matches Err(e) ==> e.is_decode(bad_encode(rgba@.len(), width, height)),
        job matches Ok(j) ==> j.format == format && j.width == width && j.height == height
            && j.quality == JPEG_QUALITY_DEFAULT && j.shape is Rgba && j.bytes@ == rgba@,
{
    encode_rgba8_opt(rgba, width, height, format, JPEG_QUALITY_DEFAULT, false)
}

/// The channels that a codec reads an encode of a shape as; it makes the missing
/// alpha of a coloured one itself.
pub open spec fn read_layout(shape: LosslessShape) -> ChannelLayout {
    match shape {
        LosslessShape::Gray => ChannelLayout::Gray,
        LosslessShape::GrayA => ChannelLayout::GrayA,
        _ => ChannelLayout::Rgba,
    }
}

/// The frame that a codec which loses nothing reads back of a job.
pub open spec fn read_frame(job: EncodeJob) -> Seq<u8> {
    match job.shape {
        LosslessShape::Rgb => restored(job.bytes@, LosslessShape::Rgb),
        _ => job.bytes@,
    }
}

/// Whether a codec reads a PNG file back as the job that it was written from: it
/// has the magic number, the job's extent, its pixels and no profile.
pub open spec fn reads_back<
    B: Fn(Format, &[u8]) -> Result<SourceInfo, String>,
    R: Fn(Format, &[u8], usize) -> Result<Vec<u8>, String>,
    I: Fn(&[u8], &Vec<u8>) -> InkOutcome,
    D: Fn(&[u8], &Vec<u8>) -> ProfileOutcome,
>(job: EncodeJob, file: &[u8], probe: B, lane: Lane<R, I, D>) -> bool {
    &&& crate::source::sniffed(file@) == Some(Format::Png)
    &&& forall|header: Result<SourceInfo, String>| #[trigger]
        probe.ensures((Format::Png, file), header) ==> (header matches Ok(info) && info
            == (SourceInfo {
            width: job.width,
            height: job.height,
            channels: read_layout(job.shape),
            depth: SampleDepth::U8,
            orientation: None,
        }))
    &&& forall|n: usize, frame: Result<Vec<u8>, String>| #[trigger]
        lane.read.ensures((Format::Png, file, n), frame) ==> (frame matches Ok(buf) && buf@
            == read_frame(job))
    &&& forall|buf: Vec<u8>, profile: ProfileOutcome| #[trigger]
        lane.display.ensures((file, &buf), profile) ==> profile is Absent
}

/// What is encoded as PNG decodes to itself, with or without a reduction, on a
/// codec that reads back what it wrote.
pub proof fn a_lossless_encode_decodes_to_itself<
    C: Fn(&[u8]) -> Result<PsdComposite, PsdRefusal>,
    B: Fn(Format, &[u8]) -> Result<SourceInfo, String>,
    R: Fn(Format, &[u8], usize) -> Result<Vec<u8>, String>,
    I: Fn(&[u8], &Vec<u8>) -> InkOutcome,
    D: Fn(&[u8], &Vec<u8>) -> ProfileOutcome,
>(
    rgba: Seq<u8>,
    job: EncodeJob,
    file: &[u8],
    psd: C,
    probe: B,
    lane: Lane<R, I, D>,
    image: Result<DecodedImage, IngestError>,
)
    requires
        rgba.len() == job.width * job.height * 4,
        job.shape == shape_of(rgba) || job.shape is Rgba,
        job.bytes@ == reduced(rgba, job.shape),
        reads_back(job, file, probe, lane),
        crate::source::opens(file, psd, probe, lane, image),
    ensures
        image matches Ok(i) && i.width == job.width && i.height == job.height && i.rgba.stored()
            == rgba && i.rgba.sample_depth() is U8 && i.display is AssumedSrgb
            && !i.depth_reduced,
{
    assert((job.width * job.height * 4) % 4 == 0) by (nonlinear_arith);
    reduction_is_lossless(rgba);
    let header = choose|header: Result<SourceInfo, String>| #[trigger]
        probe.ensures((Format::Png, file), header) && (match header {
            Ok(info) => lane.delivers(Format::Png, file, info, image),
            Err(text) => image matches Err(e) && e.is_decode(text@),
        });
    let info = header->Ok_0;
    assert(info.admitted());
    let n = info.frame() as usize;
    let outcome = choose|outcome: Result<Vec<u8>, String>|
        #![trigger lane.read.ensures((Format::Png, file, n), outcome)]
        lane.read.ensures((Format::Png, file, n), outcome) && (match (outcome, image) {
            (Err(text), Err(e)) => e.is_decode(text@),
            (Ok(buf), Ok(i)) => lane.decodes(file, info, buf, i),
            (Ok(buf), Err(e)) => lane.uncastable(file, info, buf, e),
            (Err(_), Ok(_)) => false,
        });
    let buf = outcome->Ok_0;
    assert(crate::source::spread(buf@, info.channels, false) == restored(job.bytes@, job.shape));
}

/// Plane `c` of the first `n` pixels of an interleaved buffer.
pub open spec fn plane(rgba: Seq<u8>, n: nat, c: int) -> Seq<u8> {
    Seq::new(n, |i: int| rgba[4 * i + c])
}

/// The planes a PSD section wants: R, G, B, and A where alpha travels.
pub open spec fn planes_of(rgba: Seq<u8>, n: nat, with_alpha: bool) -> Seq<Seq<u8>> {
    Seq::new(
        if with_alpha {
            4nat
        } else {
            3
        },
        |c: int| plane(rgba, n, c),
    )
}

/// Split interleaved straight RGBA8 into planes.
pub fn planes_from_rgba8(rgba: &[u8], n: usize, with_alpha: bool) -> (planes: Vec<Vec<u8>>)
    requires
        4 * n <= rgba@.len(),
    ensures
        views(planes@) == planes_of(rgba@, n as nat, with_alpha),
{
    let len: usize = rgba.len();
    let count: usize = if with_alpha {
        4
    } else {
        3
    };
    let mut planes: Vec<Vec<u8>> = Vec::new();
    let mut c: usize = 0;
    while c < count
        invariant
            len == rgba@.len(),
            4 * n <= len,
            count == (if with_alpha {
                4int
            } else {
                3
            }),
            c <= count,
            planes@.len() == c,
            forall|k: int| 0 <= k < c ==> (#[trigger] planes@[k])@ == plane(rgba@, n as nat, k),
        decreases count - c,
    {
        let mut out: Vec<u8> = Vec::new();
        let mut i: usize = 0;
        while i < n
            invariant
                len == rgba@.len(),
                4 * n <= len,
                c < 4,
                i <= n,
                out@.len() == i,
                forall|j: int|
                    0 <= j < i ==> out@[j] == #[trigger] plane(rgba@, n as nat, c as int)[j],
            decreases n - i,
        {
            out.push(rgba[4 * i + c]);
            i = i + 1;
        }
        proof {
            assert(out@ =~= plane(rgba@, n as nat, c as int));
        }
        planes.push(out);
        c = c + 1;
    }
    proof {
        assert(views(planes@) =~= planes_of(rgba@, n as nat, with_alpha));
    }
    planes
}

/// Every byte of the image is in exactly the plane of its channel: the planes
/// lose nothing but an alpha that does not travel.
pub proof fn planes_hold_every_sample(rgba: Seq<u8>, n: nat, with_alpha: bool, i: int, c: int)
    requires
        0 <= i < n,
        0 <= c < planes_of(rgba, n, with_alpha).len(),
    ensures
        planes_of(rgba, n, with_alpha)[c][i] == rgba[4 * i + c],
{
}

/// The bytes of each plane.
pub open spec fn views(planes: Seq<Vec<u8>>) -> Seq<Seq<u8>> {
    planes.map_values(|p: Vec<u8>| p@)
}

/// The bytes of one row count in a packed section.
pub open spec fn count_width(psb: bool) -> nat {
    if psb {
        4
    } else {
        2
    }
}

/// The count tables of the first `k` packed planes, one after the other.
pub open spec fn count_tables(encoded: Seq<Seq<u8>>, split: int, k: nat) -> Seq<u8>
    decreases k,
{
    if k == 0 {
        Seq::empty()
    } else {
        count_tables(encoded, split, (k - 1) as nat) + encoded[k - 1].take(split)
    }
}

/// The packed rows of the first `k` packed planes, one after the other.
pub open spec fn packed_rows(encoded: Seq<Seq<u8>>, split: int, k: nat) -> Seq<u8>
    decreases k,
{
    if k == 0 {
        Seq::empty()
    } else {
        packed_rows(encoded, split, (k - 1) as nat) + encoded[k - 1].skip(split)
    }
}

/// The merged composite of packed planes: all the count tables first, then all
/// the rows.
pub open spec fn composite_section(packed: Seq<Vec<u8>>, psb: bool, height: u32) -> Seq<u8> {
    let planes = views(packed);
    let split = height * count_width(psb);
    count_tables(planes, split, planes.len()) + packed_rows(planes, split, planes.len())
}

/// Whether the planes were packed one by one, each to its count table at least.
pub open spec fn packs_each<P: Fn(&Vec<u8>) -> Result<Vec<u8>, String>>(
    pack: P,
    planes: Seq<Vec<u8>>,
    packed: Seq<Vec<u8>>,
    split: int,
) -> bool {
    &&& packed.len() <= planes.len()
    &&& forall|k: int|
        0 <= k < packed.len() ==> pack.ensures((&planes[k],), Ok(#[trigger] packed[k]))
            && packed[k]@.len() >= split
}

/// Whether the plane after those in `packed` is the first that does not pack:
/// the packer refuses it, or leaves it shorter than its count table.
pub open spec fn stops_at<P: Fn(&Vec<u8>) -> Result<Vec<u8>, String>>(
    pack: P,
    planes: Seq<Vec<u8>>,
    packed: Seq<Vec<u8>>,
    split: int,
    e: IngestError,
) -> bool {
    &&& packs_each(pack, planes, packed, split)
    &&& packed.len() < planes.len()
    &&& exists|outcome: Result<Vec<u8>, String>| #[trigger]
        pack.ensures((&planes[packed.len() as int],), outcome) && (match outcome {
            Ok(p) => p@.len() < split && e.is_decode(
                "composite RLE encode produced a short count table"@,
            ),
            Err(text) => e.is_decode(text@),
        })
}

/// Whether the planes do not pack.
pub open spec fn unpackable<P: Fn(&Vec<u8>) -> Result<Vec<u8>, String>>(
    pack: P,
    planes: Seq<Vec<u8>>,
    split: int,
    e: IngestError,
) -> bool {
    exists|packed: Seq<Vec<u8>>| #[trigger] stops_at(pack, planes, packed, split, e)
}

/// Pack the planes and lay out the merged composite: each plane packs to its own
/// count table and rows, and the section wants all the tables first. Returns the
/// section and the packed planes. The first plane that does not pack is the
/// error.
pub fn encode_composite_rle<P: Fn(&Vec<u8>) -> Result<Vec<u8>, String>>(
    planes: &Vec<Vec<u8>>,
    psb: bool,
    height: u32,
    pack: &P,
) -> (section: Result<(Vec<u8>, Vec<Vec<u8>>), IngestError>)
    requires
        forall|k: int| 0 <= k < planes@.len() ==> #[trigger] pack.requires((&planes@[k],)),
    ensures
        ({
            let split = height * count_width(psb);
            match section {
                Ok((raw, packed)) => {
                    &&& packed@.len() == planes@.len()
                    &&& packs_each(*pack, planes@, packed@, split)
                    &&& raw@ == composite_section(packed@, psb, height)
                },
                Err(e) => unpackable(*pack, planes@, split, e),
            }
        }),
{
    let split: u64 = if psb {
        height as u64 * 4
    } else {
        height as u64 * 2
    };
    proof {
        assert(height * count_width(psb) == split) by (nonlinear_arith)
            requires
                count_width(psb) == 4 && split == height * 4 || count_width(psb) == 2 && split
                    == height * 2,
        ;
    }
    let mut encoded: Vec<Vec<u8>> = Vec::new();
    let mut counts: Vec<u8> = Vec::new();
    let mut rows: Vec<u8> = Vec::new();
    let mut k: usize = 0;
    while k < planes.len()
        invariant
            k <= planes@.len(),
            split == height * count_width(psb),
            forall|j: int| 0 <= j < planes@.len() ==> #[trigger] pack.requires((&planes@[j],)),
            encoded@.len() == k,
            packs_each(*pack, planes@, encoded@, split as int),
            counts@ == count_tables(
                views(encoded@),
                split as int,
                k as nat,
            ),
            rows@ == packed_rows(views(encoded@), split as int, k as nat),
        decreases planes@.len() - k,
    {
        let plane: &Vec<u8> = &planes[k];
        assert(pack.requires((&planes@[k as int],)));
        let outcome: Result<Vec<u8>, String> = pack(plane);
        assert(pack.ensures((&planes@[encoded@.len() as int],), outcome));
        let packed: Vec<u8> = match outcome {
            Ok(p) => p,
            Err(text) => {
                let e: IngestError = IngestError::Decode(text);
                proof {
                    assert(stops_at(*pack, planes@, encoded@, split as int, e));
                }
                return Err(e);
            },
        };
        if (packed.len() as u64) < split {
            let e: IngestError = undecodable("composite RLE encode produced a short count table");
            proof {
                assert(stops_at(*pack, planes@, encoded@, split as int, e));
            }
            return Err(e);
        }
        let at: usize = split as usize;
        let (table, body) = packed.as_slice().split_at(at);
        proof {
            assert(table@ =~= packed@.take(at as int));
            assert(body@ =~= packed@.skip(at as int));
        }
        counts.extend_from_slice(table);
        rows.extend_from_slice(body);
        let ghost before = encoded@;
        encoded.push(packed);
        proof {
            let old_views = views(before);
            let views = views(encoded@);
            lemma_sections_extend(old_views, views, split as int, k as nat);
            assert(views[k as int] == packed@);
            assert(counts@ =~= count_tables(views, split as int, (k + 1) as nat));
            assert(rows@ =~= packed_rows(views, split as int, (k + 1) as nat));
            assert forall|j: int| 0 <= j < encoded@.len() implies pack.ensures(
                (&planes@[j],),
                Ok(#[trigger] encoded@[j]),
            ) && encoded@[j]@.len() >= split by {
                if j < k {
                    assert(encoded@[j] == before[j]);
                }
            }
        }
        k = k + 1;
    }
    counts.extend_from_slice(rows.as_slice());
    proof {
        assert(counts@ =~= composite_section(encoded@, psb, height));
    }
    Ok((counts, encoded))
}

/// The tables and rows of the first planes are theirs alone.
proof fn lemma_sections_extend(a: Seq<Seq<u8>>, b: Seq<Seq<u8>>, split: int, k: nat)
    requires
        k <= a.len(),
        k <= b.len(),
        forall|j: int| 0 <= j < k ==> #[trigger] a[j] == b[j],
    ensures
        count_tables(a, split, k) == count_tables(b, split, k),
        packed_rows(a, split, k) == packed_rows(b, split, k),
    decreases k,
{
    if k > 0 {
        lemma_sections_extend(a, b, split, (k - 1) as nat);
        assert(a[k - 1] == b[k - 1]);
    }
}

/// A PSD's colour mode.
#[derive(Debug, Clone, Copy, PartialEq, Eq, Structural)]
pub enum ColorMode {
    Bitmap,
    Grayscale,
    Indexed,
    Rgb,
    Cmyk,
    Multichannel,
    Duotone,
    Lab,
}

impl ColorMode {
    pub open spec fn text(self) -> Seq<char> {
        match self {
            ColorMode::Bitmap => "Bitmap"@,
            ColorMode::Grayscale => "Grayscale"@,
            ColorMode::Indexed => "Indexed"@,
            ColorMode::Rgb => "Rgb"@,
            ColorMode::Cmyk => "Cmyk"@,
            ColorMode::Multichannel => "Multichannel"@,
            ColorMode::Duotone => "Duotone"@,
            ColorMode::Lab => "Lab"@,
        }
    }

    fn name(self) -> (name: &'static str)
        ensures
            name@ == self.text(),
    {
        match self {
            ColorMode::Bitmap => "Bitmap",
            ColorMode::Grayscale => "Grayscale",
            ColorMode::Indexed => "Indexed",
            ColorMode::Rgb => "Rgb",
            ColorMode::Cmyk => "Cmyk",
            ColorMode::Multichannel => "Multichannel",
            ColorMode::Duotone => "Duotone",
            ColorMode::Lab => "Lab",
        }
    }
}

/// What the save-back reads of a PSD layer record.
#[derive(Debug)]
pub struct PsdLayer {
    pub top: i32,
    pub left: i32,
    pub bottom: i32,
    pub right: i32,
    /// The channel ids, in record order: 0, 1, 2 for R, G, B and -1 for
    /// transparency.
    pub channel_ids: Vec<i16>,
    /// Whether the record is a section divider or folder marker rather than
    /// pixel content.
    pub divider: bool,
}

/// What the save-back reads of a parsed PSD.
#[derive(Debug)]
pub struct PsdDocument {
    /// Whether the container is the large-document one.
    pub psb: bool,
    pub depth: u16,
    pub color_mode: ColorMode,
    pub width: u32,
    pub height: u32,
    pub channels: u16,
    /// Whether the merged composite declares a transparency channel.
    pub transparency_in_merged: bool,
    pub layers: Vec<PsdLayer>,
}

impl PsdDocument {
    /// Whether alpha travels: only where the file already declared it.
    pub open spec fn with_alpha(self) -> bool {
        self.channels >= 4 && self.transparency_in_merged
    }

    /// The number of planes that are written.
    pub open spec fn plane_count(self) -> nat {
        if self.with_alpha() {
            4
        } else {
            3
        }
    }

    /// Whether record `i` is the only one with pixel content.
    pub open spec fn only_content(self, i: int) -> bool {
        &&& 0 <= i < self.layers@.len()
        &&& forall|j: int| 0 <= j < self.layers@.len() ==> ((#[trigger] self.layers@[j]).divider <==> j != i)
    }

    /// Whether record `i` covers the canvas with channels that all have a
    /// plane.
    pub open spec fn replaceable(self, i: int) -> bool {
        let l = self.layers@[i];
        &&& l.top == 0
        &&& l.left == 0
        &&& l.right == self.width
        &&& l.bottom == self.height
        &&& l.channel_ids@.len() == self.plane_count()
        &&& forall|k: int|
            0 <= k < l.channel_ids@.len() ==> plane_of(#[trigger] l.channel_ids@[k], self.with_alpha()) is Some
    }

    /// Whether the channels of record `i` can be replaced in place.
    pub open spec fn in_place(self, i: int) -> bool {
        self.only_content(i) && self.channels == self.plane_count() && self.replaceable(i)
    }
}

/// The plane of a channel id.
pub open spec fn plane_of(id: i16, with_alpha: bool) -> Option<nat> {
    if 0 <= id <= 2 {
        Some(id as nat)
    } else if id == -1 && with_alpha {
        Some(3)
    } else {
        None
    }
}

fn plane_for(id: i16, with_alpha: bool) -> (plane: Option<usize>)
    ensures
        match plane {
            Some(p) => plane_of(id, with_alpha) == Some(p as nat),
            None => plane_of(id, with_alpha) is None,
        },
{
    if 0 <= id && id <= 2 {
        Some(id as usize)
    } else if id == -1 && with_alpha {
        Some(3)
    } else {
        None
    }
}

/// What the writer does to the layer records.
#[derive(Debug)]
pub enum LayerEdit {
    /// Replace the channels of this record; channel `k` takes plane
    /// `planes[k]`.
    Replace { layer: usize, planes: Vec<usize> },
    /// Replace all records by this one.
    Flatten { record: LayerRecord },
}

/// A PSD save-back, ready for the writer. The merged composite is rewritten in
/// every case: a stale one would show the unadjusted image.
#[derive(Debug)]
pub struct PsdSaveBack {
    pub shape: PsdSaveBackShape,
    /// The planes, R, G, B and A where alpha travels.
    pub planes: Vec<Vec<u8>>,
    /// The planes packed, in the same order.
    pub packed: Vec<Vec<u8>>,
    /// The merged composite, packed.
    pub composite: Vec<u8>,
    /// The header's channel count from now on.
    pub channels: u16,
    /// Whether the merged composite declares transparency from now on.
    pub transparency_in_merged: bool,
    pub edit: LayerEdit,
}

/// The refusal of a file or an image outside the save-back's reach.
pub open spec fn save_back_refusal(file: PsdDocument, w: u32, h: u32, len: nat) -> (bool, Seq<char>) {
    if file.depth != 8 {
        (
            true,
            "PSD save-back at depth "@ + crate::strings::decimal(file.depth as nat)
                + " (8-bit only)"@,
        )
    } else if !(file.color_mode is Rgb) {
        (
            true,
            "PSD save-back for color mode "@ + file.color_mode.text()
                + " (RGB only; Grayscale/CMYK/Lab are the M2 cast lane)"@,
        )
    } else if file.width != w || file.height != h {
        (
            true,
            "PSD save-back size mismatch: the engine image is "@ + crate::strings::decimal(w as nat)
                + "x"@ + crate::strings::decimal(h as nat) + ", the PSD is "@
                + crate::strings::decimal(file.width as nat) + "x"@ + crate::strings::decimal(
                file.height as nat,
            ) + " (crop/resize the PSD lane is a follow-up)"@,
        )
    } else {
        (
            false,
            crate::ingest::mis_sized(
                "PSD save-back: "@,
                len,
                " bytes for "@,
                w,
                "x"@,
                h,
                (w * h * 4) as nat,
            ),
        )
    }
}

/// Whether the save-back accepts a file and an image.
pub open spec fn save_back_admits(file: PsdDocument, w: u32, h: u32, len: nat) -> bool {
    file.depth == 8 && file.color_mode is Rgb && file.width == w && file.height == h && len == w * h
        * 4
}

fn find_in_place(file: &PsdDocument) -> (at: Option<(usize, Vec<usize>)>)
    ensures
        match at {
            Some(found) => {
                let (i, planes) = found;
                &&& file.in_place(i as int)
                &&& planes@.len() == file.layers@[i as int].channel_ids@.len()
                &&& forall|k: int|
                    0 <= k < planes@.len() ==> plane_of(
                        file.layers@[i as int].channel_ids@[k],
                        file.with_alpha(),
                    ) == Some(#[trigger] planes@[k] as nat)
            },
            None => forall|i: int| !(#[trigger] file.in_place(i)),
        },
{
    let with_alpha: bool = file.channels >= 4 && file.transparency_in_merged;
    let count: u16 = if with_alpha {
        4
    } else {
        3
    };
    let mut content: Option<usize> = None;
    let mut i: usize = 0;
    while i < file.layers.len()
        invariant
            i <= file.layers@.len(),
            match content {
                Some(c) => c < i && !file.layers@[c as int].divider && forall|j: int|
                    0 <= j < i && j != c ==> (#[trigger] file.layers@[j]).divider,
                None => forall|j: int| 0 <= j < i ==> (#[trigger] file.layers@[j]).divider,
            },
        decreases file.layers@.len() - i,
    {
        if !file.layers[i].divider {
            if let Some(c) = content {
                proof {
                    assert(!file.layers@[c as int].divider && !file.layers@[i as int].divider && c
                        != i);
                    assert forall|k: int| !(#[trigger] file.in_place(k)) by {
                        if file.only_content(k) {
                            assert(file.layers@[c as int].divider <==> c != k);
                            assert(file.layers@[i as int].divider <==> i != k);
                        }
                    }
                }
                return None;
            }
            content = Some(i);
        }
        i = i + 1;
    }
    let at: usize = match content {
        Some(c) => c,
        None => {
            proof {
                assert forall|k: int| !(#[trigger] file.in_place(k)) by {
                    if file.only_content(k) {
                        assert(file.layers@[k].divider <==> k != k);
                    }
                }
            }
            return None;
        },
    };
    proof {
        assert(file.only_content(at as int));
        assert forall|k: int| #[trigger] file.in_place(k) implies k == at by {
            assert(file.layers@[at as int].divider <==> at != k);
        }
    }
    let l: &PsdLayer = &file.layers[at];
    if file.channels != count || l.top != 0 || l.left != 0 || l.right as i64 != file.width as i64
        || l.bottom as i64 != file.height as i64 || l.channel_ids.len() != count as usize {
        return None;
    }
    let mut planes: Vec<usize> = Vec::new();
    let mut k: usize = 0;
    while k < l.channel_ids.len()
        invariant
            at < file.layers@.len(),
            *l == file.layers@[at as int],
            with_alpha == file.with_alpha(),
            forall|k: int| #[trigger] file.in_place(k) ==> k == at,
            k <= l.channel_ids@.len(),
            planes@.len() == k,
            forall|j: int|
                0 <= j < k ==> plane_of(l.channel_ids@[j], with_alpha) == Some(
                    #[trigger] planes@[j] as nat,
                ),
        decreases l.channel_ids@.len() - k,
    {
        match plane_for(l.channel_ids[k], with_alpha) {
            Some(p) => {
                planes.push(p);
            },
            None => {
                proof {
                    assert(plane_of(l.channel_ids@[k as int], with_alpha) is None);
                    assert(!file.replaceable(at as int));
                }
                return None;
            },
        }
        k = k + 1;
    }
    proof {
        assert forall|j: int| 0 <= j < l.channel_ids@.len() implies plane_of(
            #[trigger] l.channel_ids@[j],
            file.with_alpha(),
        ) is Some by {
            assert(plane_of(l.channel_ids@[j], with_alpha) == Some(planes@[j] as nat));
        }
    }
    Some((at, planes))
}

/// Whether the planes of an admitted save-back do not pack.
pub open spec fn save_back_stops<P: Fn(&Vec<u8>) -> Result<Vec<u8>, String>>(
    file: PsdDocument,
    rgba: Seq<u8>,
    pack: P,
    e: IngestError,
) -> bool {
    exists|planes: Seq<Vec<u8>>|
        #![trigger views(planes)]
        views(planes) == planes_of(
            rgba,
            (file.width * file.height) as nat,
            file.with_alpha(),
        ) && unpackable(pack, planes, file.height * count_width(file.psb), e)
}

/// Prepare the write of adjusted full-resolution RGBA8 back into a parsed PSD.
///
/// Anything outside the 8-bit RGB cut, another extent and a torn buffer are
/// refused, in this order; then the planes are packed. The merged composite is
/// rewritten in every case. The channels of a single canvas-sized content layer
/// are replaced in place when each has a plane and the header's channel count
/// already matches; otherwise the file is flattened into one layer.
pub fn psd_write_adjusted<P: Fn(&Vec<u8>) -> Result<Vec<u8>, String>>(
    file: &PsdDocument,
    width: u32,
    height: u32,
    rgba: &[u8],
    pack: &P,
) -> (plan: Result<PsdSaveBack, IngestError>)
    requires
        forall|plane: Vec<u8>|
            plane@.len() == width * height ==> #[trigger] pack.requires((&plane,)),
    ensures
        plan is Ok ==> save_back_admits(*file, width, height, rgba@.len()),
        plan matches Err(e) ==> if save_back_admits(*file, width, height, rgba@.len()) {
            save_back_stops(*file, rgba@, *pack, e)
        } else {
            let (refused, sentence) = save_back_refusal(*file, width, height, rgba@.len());
            if refused {
                e.is_unsupported(sentence)
            } else {
                e.is_decode(sentence)
            }
        },
        plan matches Ok(s) ==> {
            &&& views(s.planes@) == planes_of(
                rgba@,
                (width * height) as nat,
                file.with_alpha(),
            )
            &&& s.packed@.len() == s.planes@.len()
            &&& packs_each(*pack, s.planes@, s.packed@, height * count_width(file.psb))
            &&& s.composite@ == composite_section(s.packed@, file.psb, height)
            &&& s.channels == file.plane_count()
            &&& s.transparency_in_merged == (if s.shape is LayerReplaced {
                file.transparency_in_merged
            } else {
                file.with_alpha()
            })
            &&& s.shape is LayerReplaced <==> exists|i: int| #[trigger] file.in_place(i)
            &&& match s.edit {
                LayerEdit::Replace { layer, planes } => {
                    &&& s.shape is LayerReplaced
                    &&& file.in_place(layer as int)
                    &&& planes@.len() == file.layers@[layer as int].channel_ids@.len()
                    &&& forall|k: int|
                        0 <= k < planes@.len() ==> plane_of(
                            file.layers@[layer as int].channel_ids@[k],
                            file.with_alpha(),
                        ) == Some(#[trigger] planes@[k] as nat)
                },
                LayerEdit::Flatten { record } => {
                    &&& s.shape is Flattened
                    &&& record.flattens(s.packed@, width, height, file.with_alpha())
                },
            }
        },
{
    if file.depth != 8 {
        let mut s: String = "PSD save-back at depth ".to_owned();
        push_decimal(&mut s, file.depth as u128);
        s.append(" (8-bit only)");
        return Err(IngestError::Unsupported(s));
    }
    if file.color_mode != ColorMode::Rgb {
        let mut s: String = "PSD save-back for color mode ".to_owned();
        s.append(file.color_mode.name());
        s.append(" (RGB only; Grayscale/CMYK/Lab are the M2 cast lane)");
        return Err(IngestError::Unsupported(s));
    }
    if file.width != width || file.height != height {
        let mut s: String = "PSD save-back size mismatch: the engine image is ".to_owned();
        push_decimal(&mut s, width as u128);
        s.append("x");
        push_decimal(&mut s, height as u128);
        s.append(", the PSD is ");
        push_decimal(&mut s, file.width as u128);
        s.append("x");
        push_decimal(&mut s, file.height as u128);
        s.append(" (crop/resize the PSD lane is a follow-up)");
        return Err(IngestError::Unsupported(s));
    }
    let want: u128 = canvas_bytes(width, height, 4);
    if rgba.len() as u128 != want {
        return Err(
            IngestError::Decode(
                mis_sized_text(
                    "PSD save-back: ",
                    rgba.len(),
                    " bytes for ",
                    width,
                    "x",
                    height,
                    want,
                ),
            ),
        );
    }
    let len: usize = rgba.len();
    proof {
        assert(width * height * 4 == 4 * (width * height));
        assert(0 <= width * height) by (nonlinear_arith)
            requires
                0 <= width,
                0 <= height,
        ;
    }
    let n: usize = width as usize * height as usize;
    let with_alpha: bool = file.channels >= 4 && file.transparency_in_merged;
    let planes: Vec<Vec<u8>> = planes_from_rgba8(rgba, n, with_alpha);
    proof {
        assert(n == width * height);
        assert(views(planes@).len() == planes@.len());
        assert(planes@.len() == file.plane_count());
    }
    let channels: u16 = if with_alpha {
        4
    } else {
        3
    };
    proof {
        assert forall|k: int| 0 <= k < planes@.len() implies #[trigger] pack.requires(
            (&planes@[k],),
        ) by {
            let wanted = planes_of(rgba@, (width * height) as nat, file.with_alpha());
            assert(views(planes@)[k] == planes@[k]@);
            assert(wanted[k].len() == width * height);
            assert(planes@[k]@.len() == width * height);
        }
    }
    let (composite, packed) = match encode_composite_rle(&planes, file.psb, height, pack) {
        Ok(section) => section,
        Err(e) => {
            proof {
                assert(views(planes@) == planes_of(
                    rgba@,
                    (file.width * file.height) as nat,
                    file.with_alpha(),
                ));
                assert(save_back_stops(*file, rgba@, *pack, e));
            }
            return Err(e);
        },
    };
    match find_in_place(file) {
        Some((layer, order)) => Ok(
            PsdSaveBack {
                shape: PsdSaveBackShape::LayerReplaced,
                planes,
                packed,
                composite,
                channels,
                transparency_in_merged: file.transparency_in_merged,
                edit: LayerEdit::Replace { layer, planes: order },
            },
        ),
        None => {
            let record: LayerRecord = single_layer(&packed, width, height, with_alpha);
            Ok(
                PsdSaveBack {
                    shape: PsdSaveBackShape::Flattened,
                    planes,
                    packed,
                    composite,
                    channels,
                    transparency_in_merged: with_alpha,
                    edit: LayerEdit::Flatten { record },
                },
            )
        },
    }
}

/// The channel ids of a flattened layer: transparency first, then R, G, B.
pub open spec fn flat_ids(with_alpha: bool) -> Seq<i16> {
    if with_alpha {
        seq![-1i16, 0i16, 1i16, 2i16]
    } else {
        seq![0i16, 1i16, 2i16]
    }
}

/// The planes of a flattened layer's channels.
pub open spec fn flat_planes(with_alpha: bool) -> Seq<usize> {
    if with_alpha {
        seq![3usize, 0usize, 1usize, 2usize]
    } else {
        seq![0usize, 1usize, 2usize]
    }
}

fn flat_channels(with_alpha: bool) -> (order: (Vec<i16>, Vec<usize>))
    ensures
        order.0@ == flat_ids(with_alpha),
        order.1@ == flat_planes(with_alpha),
{
    let mut ids: Vec<i16> = Vec::new();
    let mut planes: Vec<usize> = Vec::new();
    if with_alpha {
        ids.push(-1);
        planes.push(3);
    }
    ids.push(0);
    planes.push(0);
    ids.push(1);
    planes.push(1);
    ids.push(2);
    planes.push(2);
    proof {
        assert(ids@ =~= flat_ids(with_alpha));
        assert(planes@ =~= flat_planes(with_alpha));
    }
    (ids, planes)
}

/// One channel of a layer record.
#[derive(Debug, Clone, Copy, PartialEq, Eq, Structural)]
pub struct ChannelInfo {
    pub id: i16,
    /// The length of the channel's data: the compression tag and the packed
    /// bytes.
    pub data_len: u64,
}

/// The length of packed bytes behind their compression tag; it saturates.
pub open spec fn tagged(len: nat) -> u64 {
    if len + 2 <= u64::MAX {
        (len + 2) as u64
    } else {
        u64::MAX
    }
}

/// A layer record as a flattened save-back emits it.
#[derive(Debug)]
pub struct LayerRecord {
    pub top: i32,
    pub left: i32,
    pub bottom: i32,
    pub right: i32,
    pub channels: Vec<ChannelInfo>,
    /// The packed bytes of each channel.
    pub channel_data: Vec<Vec<u8>>,
    pub blend_sig: [u8; 4],
    pub blend_key: [u8; 4],
    pub opacity: u8,
    pub clipping: u8,
    pub flags: u8,
    pub filler: u8,
    pub name: String,
}

impl LayerRecord {
    /// Whether this is the one record of a flattened file: canvas-sized, opaque,
    /// visible, normally blended and named "Adjusted", with one channel for each
    /// packed plane.
    pub open spec fn flattens(
        self,
        packed: Seq<Vec<u8>>,
        width: u32,
        height: u32,
        with_alpha: bool,
    ) -> bool {
        &&& self.top == 0
        &&& self.left == 0
        &&& self.bottom == height as i32
        &&& self.right == width as i32
        &&& self.channels@.len() == packed.len()
        &&& self.channel_data@.len() == packed.len()
        &&& forall|k: int|
            0 <= k < packed.len() ==> (#[trigger] self.channels@[k]) == (ChannelInfo {
                id: flat_ids(with_alpha)[k],
                data_len: tagged(packed[flat_planes(with_alpha)[k] as int]@.len()),
            })
        &&& forall|k: int|
            0 <= k < packed.len() ==> (#[trigger] self.channel_data@[k])@
                == packed[flat_planes(with_alpha)[k] as int]@
        // "8BIM" and "norm"
        &&& self.blend_sig@ == seq![0x38u8, 0x42u8, 0x49u8, 0x4Du8]
        &&& self.blend_key@ == seq![0x6Eu8, 0x6Fu8, 0x72u8, 0x6Du8]
        &&& self.opacity == 255
        &&& self.clipping == 0
        &&& self.flags == 0
        &&& self.filler == 0
        &&& self.name@ == "Adjusted"@
    }
}

/// The one record that a flattened save-back emits for packed planes.
/// Conventional channel order: transparency first, then R, G, B.
pub fn single_layer(packed: &Vec<Vec<u8>>, width: u32, height: u32, with_alpha: bool) -> (record:
    LayerRecord)
    requires
        packed@.len() == (if with_alpha {
            4int
        } else {
            3
        }),
    ensures
        record.flattens(packed@, width, height, with_alpha),
{
    let (ids, planes) = flat_channels(with_alpha);
    let mut channels: Vec<ChannelInfo> = Vec::new();
    let mut channel_data: Vec<Vec<u8>> = Vec::new();
    let mut k: usize = 0;
    while k < ids.len()
        invariant
            ids@ == flat_ids(with_alpha),
            planes@ == flat_planes(with_alpha),
            packed@.len() == ids@.len(),
            k <= ids@.len(),
            channels@.len() == k,
            channel_data@.len() == k,
            forall|j: int|
                0 <= j < k ==> (#[trigger] channels@[j]) == (ChannelInfo {
                    id: flat_ids(with_alpha)[j],
                    data_len: tagged(packed@[flat_planes(with_alpha)[j] as int]@.len()),
                }),
            forall|j: int|
                0 <= j < k ==> (#[trigger] channel_data@[j])@ == packed@[flat_planes(
                    with_alpha,
                )[j] as int]@,
        decreases ids@.len() - k,
    {
        let p: usize = planes[k];
        let mut data: Vec<u8> = Vec::new();
        data.extend_from_slice(packed[p].as_slice());
        let n: u64 = packed[p].len() as u64;
        channels.push(ChannelInfo { id: ids[k], data_len: n.saturating_add(2) });
        proof {
            assert(data@ =~= packed@[p as int]@);
        }
        channel_data.push(data);
        k = k + 1;
    }
    let blend_sig: [u8; 4] = [0x38, 0x42, 0x49, 0x4D];
    let blend_key: [u8; 4] = [0x6E, 0x6F, 0x72, 0x6D];
    proof {
        assert(blend_sig@ =~= seq![0x38u8, 0x42u8, 0x49u8, 0x4Du8]);
        assert(blend_key@ =~= seq![0x6Eu8, 0x6Fu8, 0x72u8, 0x6Du8]);
    }
    LayerRecord {
        top: 0,
        left: 0,
        bottom: height as i32,
        right: width as i32,
        channels,
        channel_data,
        blend_sig,
        blend_key,
        opacity: 255,
        clipping: 0,
        flags: 0,
        filler: 0,
        name: "Adjusted".to_owned(),
    }
}

proof fn lemma_tables(encoded: Seq<Seq<u8>>, split: int, k: nat)
    requires
        0 <= split,
        k <= encoded.len(),
        forall|j: int| 0 <= j < k ==> (#[trigger] encoded[j]).len() >= split,
    ensures
        count_tables(encoded, split, k).len() == k * split,
        forall|j: int, b: int|
            #![trigger count_tables(encoded, split, k)[j * split + b]]
            0 <= j < k && 0 <= b < split ==> count_tables(encoded, split, k)[j * split + b]
                == encoded[j][b],
    decreases k,
{
    if k == 0 {
        assert(k * split == 0) by (nonlinear_arith)
            requires
                k == 0,
        ;
    } else {
        lemma_tables(encoded, split, (k - 1) as nat);
        let rest = count_tables(encoded, split, (k - 1) as nat);
        assert(encoded[k - 1].len() >= split);
        assert(k * split == (k - 1) * split + split) by (nonlinear_arith);
        assert forall|j: int, b: int|
            #![trigger count_tables(encoded, split, k)[j * split + b]]
            0 <= j < k && 0 <= b < split implies count_tables(encoded, split, k)[j * split + b]
            == encoded[j][b] by {
            if j < k - 1 {
                assert(0 <= j * split && j * split + split <= (k - 1) * split) by (nonlinear_arith)
                    requires
                        0 <= j < k - 1,
                        0 <= split,
                ;
                assert(rest[j * split + b] == encoded[j][b]);
            }
        }
    }
}

/// A merged composite opens with the row counts of its planes, one plane after the
/// other, two bytes for each row and four in the large container; the packed rows
/// follow, those of the last plane at the end.
pub proof fn a_composite_opens_with_its_row_counts(
    packed: Seq<Vec<u8>>,
    psb: bool,
    height: u32,
    k: int,
    b: int,
)
    requires
        0 <= k < packed.len(),
        forall|j: int|
            0 <= j < packed.len() ==> (#[trigger] packed[j])@.len() >= height * (if psb {
                4int
            } else {
                2
            }),
        0 <= b < height * (if psb {
            4int
        } else {
            2
        }),
    ensures
        ({
            let split = height * (if psb {
                4int
            } else {
                2
            });
            let section = composite_section(packed, psb, height);
            let last = packed.last()@.skip(split);
            &&& section[k * split + b] == packed[k]@[b]
            &&& section.len() >= packed.len() * split + last.len()
            &&& section.skip(section.len() - last.len()) == last
        }),
{
    let planes = views(packed);
    let split = height * count_width(psb);
    assert forall|j: int| 0 <= j < planes.len() implies (#[trigger] planes[j]).len() >= split by {
        assert(packed[j]@.len() >= split);
    }
    lemma_tables(planes, split, planes.len());
    assert(planes[k] == packed[k]@);
    assert(0 <= k * split && k * split + split <= planes.len() * split) by (nonlinear_arith)
        requires
            0 <= k < planes.len(),
            0 <= split,
    ;
    let tables = count_tables(planes, split, planes.len());
    assert(tables[k * split + b] == planes[k][b]);
    let before = packed_rows(planes, split, (planes.len() - 1) as nat);
    let last = packed.last()@.skip(split);
    assert(planes[planes.len() - 1] == packed.last()@);
    let section = composite_section(packed, psb, height);
    assert(section == tables + (before + last));
    assert(section.skip(section.len() - last.len()) =~= last);
}

/// A record is written in place only where nothing else has content and it is the
/// canvas: it starts at the corner, spans the extent, and each of its channels is a
/// plane, red, green and blue by their ids and the transparency as the fourth, where
/// the merged image has one.
pub proof fn a_record_in_place_is_the_canvas(file: PsdDocument, i: int, k: int)
    requires
        file.in_place(i),
        0 <= k < file.layers@[i].channel_ids@.len(),
    ensures
        ({
            let l = file.layers@[i];
            let alpha = file.transparency_in_merged && file.channels >= 4;
            let id = l.channel_ids@[k];
            &&& !l.divider
            &&& l.left == 0 && l.top == 0 && l.right == file.width && l.bottom == file.height
            &&& l.channel_ids@.len() == file.channels
            &&& file.channels == (if alpha {
                4int
            } else {
                3
            })
            &&& id == 0 || id == 1 || id == 2 || (alpha && id == -1)
            &&& plane_of(id, file.with_alpha()) == Some(
                if id == -1 {
                    3nat
                } else {
                    id as nat
                },
            )
        }),
        forall|j: int|
            0 <= j < file.layers@.len() && j != i ==> (#[trigger] file.layers@[j]).divider,
{
    assert(plane_of(file.layers@[i].channel_ids@[k], file.with_alpha()) is Some);
    assert(file.layers@[i].divider <==> i != i);
}

/// A flattened record holds each plane under its own id: the transparency first,
/// where there is one, and then red, green and blue, each with its compression tag
/// of two bytes counted in.
pub proof fn a_flattened_record_holds_each_plane_under_its_id(
    r: LayerRecord,
    packed: Seq<Vec<u8>>,
    width: u32,
    height: u32,
    with_alpha: bool,
    c: int,
)
    requires
        r.flattens(packed, width, height, with_alpha),
        packed.len() == (if with_alpha {
            4int
        } else {
            3
        }),
        0 <= c < packed.len(),
        packed[c]@.len() + 2 <= u32::MAX,
    ensures
        ({
            let at = if !with_alpha {
                c
            } else if c == 3 {
                0
            } else {
                c + 1
            };
            &&& r.channels@[at].id == (if c == 3 {
                -1int
            } else {
                c
            })
            &&& r.channels@[at].data_len == packed[c]@.len() + 2
            &&& r.channel_data@[at]@ == packed[c]@
        }),
        r.top == 0 && r.left == 0 && r.opacity == 255 && r.clipping == 0 && r.flags == 0,
{
    let at = if !with_alpha {
        c
    } else if c == 3 {
        0
    } else {
        c + 1
    };
    assert(r.channels@[at] == r.channels@[at]);
    assert(r.channel_data@[at] == r.channel_data@[at]);
}

/// A quality reaches the encoder within its range of 1 to 100, as it is where it is in
/// range.
pub proof fn a_quality_is_brought_into_range(q: u8)
    ensures
        1 <= quality_in_range(q) <= 100,
        1 <= q <= 100 ==> quality_in_range(q) == q,
        q == 0 ==> quality_in_range(q) == 1,
        q > 100 ==> quality_in_range(q) == 100,
{
}

/// A document takes its pixels back only at eight bits and in RGB, at its own extent
/// and in full; of what stops it the depth is told first, then the mode, then the
/// extent, as things that are not done, and a short buffer as a fault.
pub proof fn a_document_takes_back_only_its_like(file: PsdDocument, w: u32, h: u32, len: nat)
    ensures
        save_back_admits(file, w, h, len) <==> file.depth == 8 && file.color_mode is Rgb && file.width
            == w && file.height == h && len == w * h * 4,
        save_back_refusal(file, w, h, len).0 <==> !(file.depth == 8 && file.color_mode is Rgb
            && file.width == w && file.height == h),
{
}

/// A plane is left unpacked only behind planes that were packed, each with at least its
/// row counts, and only where packing it failed or fell short of them.
pub proof fn a_save_stops_at_the_first_plane_that_fails<
    P: Fn(&Vec<u8>) -> Result<Vec<u8>, String>,
>(pack: P, planes: Seq<Vec<u8>>, split: int, e: IngestError) -> (packed: Seq<Vec<u8>>)
    requires
        unpackable(pack, planes, split, e),
    ensures
        packed.len() < planes.len(),
        forall|i: int|
            0 <= i < packed.len() ==> pack.ensures((&planes[i],), Ok(#[trigger] packed[i]))
                && packed[i]@.len() >= split,
        (exists|p: Vec<u8>|
            #[trigger] pack.ensures((&planes[packed.len() as int],), Ok(p)) && p@.len() < split) || (
        exists|t: String| #[trigger]
            pack.ensures((&planes[packed.len() as int],), Err(t)) && e.is_decode(t@)),
{
    let packed = choose|packed: Seq<Vec<u8>>| #[trigger] stops_at(pack, planes, packed, split, e);
    let outcome = choose|outcome: Result<Vec<u8>, String>| #[trigger]
        pack.ensures((&planes[packed.len() as int],), outcome) && (match outcome {
            Ok(p) => p@.len() < split && e.is_decode(
                "composite RLE encode produced a short count table"@,
            ),
            Err(text) => e.is_decode(text@),
        });
    assert(match outcome {
        Ok(p) => pack.ensures((&planes[packed.len() as int],), Ok(p)),
        Err(t) => pack.ensures((&planes[packed.len() as int],), Err(t)),
    });
    packed
}

} // verus!
