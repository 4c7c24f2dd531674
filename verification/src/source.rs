//! The decode lane between a codec and a decoded image: which container is
//! which, which sources are admitted, and how their samples become upright
//! straight RGBA.
use crate::cmyk::InkOutcome;
use crate::display::{DisplayTreatment, ProfileOutcome};
use crate::errors::{unsupported, IngestError};
use crate::ingest::DecodedImage;
use crate::orientation::Orientation;
use crate::pixels::{Pixels, SampleDepth};
use vstd::prelude::*;

verus! {

/// The containers this build reads.
#[derive(Debug, Clone, Copy, PartialEq, Eq, Structural)]
pub enum Format {
    Psd,
    Png,
    Jpeg,
}

/// Whether `bytes` begins with `magic`.
pub open spec fn begins(bytes: Seq<u8>, magic: Seq<u8>) -> bool {
    bytes.len() >= magic.len() && bytes.take(magic.len() as int) == magic
}

/// The container that `bytes` holds, by its magic number.
pub open spec fn sniffed(bytes: Seq<u8>) -> Option<Format> {
    if begins(bytes, seq![0x38u8, 0x42, 0x50, 0x53]) {
        Some(Format::Psd)
    } else if begins(bytes, seq![0x89u8, 0x50, 0x4e, 0x47]) {
        Some(Format::Png)
    } else if begins(bytes, seq![0xffu8, 0xd8, 0xff]) {
        Some(Format::Jpeg)
    } else {
        None
    }
}

/// Recognise a container by its magic number.
pub fn sniff(bytes: &[u8]) -> (format: Option<Format>)
    ensures
        format == sniffed(bytes@),
{
    let n: usize = bytes.len();
    let ghost b = bytes@;
    if n >= 4 && bytes[0] == 0x38 && bytes[1] == 0x42 && bytes[2] == 0x50 && bytes[3] == 0x53 {
        proof {
            assert(b.take(4) =~= seq![0x38u8, 0x42, 0x50, 0x53]);
        }
        return Some(Format::Psd);
    }
    proof {
        let magic = seq![0x38u8, 0x42, 0x50, 0x53];
        if begins(b, magic) {
            assert(b.take(4)[0] == magic[0] && b.take(4)[1] == magic[1] && b.take(4)[2] == magic[2]
                && b.take(4)[3] == magic[3]);
        }
    }
    if n >= 4 && bytes[0] == 0x89 && bytes[1] == 0x50 && bytes[2] == 0x4e && bytes[3] == 0x47 {
        proof {
            assert(b.take(4) =~= seq![0x89u8, 0x50, 0x4e, 0x47]);
        }
        return Some(Format::Png);
    }
    proof {
        let magic = seq![0x89u8, 0x50, 0x4e, 0x47];
        if begins(b, magic) {
            assert(b.take(4)[0] == magic[0] && b.take(4)[1] == magic[1] && b.take(4)[2] == magic[2]
                && b.take(4)[3] == magic[3]);
        }
    }
    if n >= 3 && bytes[0] == 0xff && bytes[1] == 0xd8 && bytes[2] == 0xff {
        proof {
            assert(b.take(3) =~= seq![0xffu8, 0xd8, 0xff]);
        }
        return Some(Format::Jpeg);
    }
    proof {
        let magic = seq![0xffu8, 0xd8, 0xff];
        if begins(b, magic) {
            assert(b.take(3)[0] == magic[0] && b.take(3)[1] == magic[1] && b.take(3)[2] == magic[2]);
        }
    }
    None
}

/// The decoder that `bytes` calls for, or the refusal of an unknown container.
pub fn decoder_for(bytes: &[u8]) -> (format: Result<Format, IngestError>)
    ensures
        format is Ok <==> sniffed(bytes@) is Some,
        format matches Ok(f) ==> sniffed(bytes@) == Some(f),
        format matches Err(e) ==> e.is_unsupported(unrecognized()),
{
    match sniff(bytes) {
        Some(f) => Ok(f),
        None => Err(unsupported("unrecognized image container (PSD/PNG/JPEG in the M4 slice)")),
    }
}

/// How a codec lays out the channels of a pixel.
#[derive(Debug, Clone, Copy, PartialEq, Eq, Structural)]
pub enum ChannelLayout {
    Gray,
    GrayA,
    Rgba,
    Cmyk,
    Cmyka,
}

impl ChannelLayout {
    /// The number of channels of a pixel.
    pub open spec fn channels(self) -> nat {
        match self {
            ChannelLayout::Gray => 1,
            ChannelLayout::GrayA => 2,
            ChannelLayout::Rgba => 4,
            ChannelLayout::Cmyk => 4,
            ChannelLayout::Cmyka => 5,
        }
    }

    fn count(self) -> (n: usize)
        ensures
            n == self.channels(),
    {
        match self {
            ChannelLayout::Gray => 1,
            ChannelLayout::GrayA => 2,
            ChannelLayout::Rgba => 4,
            ChannelLayout::Cmyk => 4,
            ChannelLayout::Cmyka => 5,
        }
    }
}

/// What a codec reports of an image before decoding it.
#[derive(Debug, Clone, Copy)]
pub struct SourceInfo {
    pub width: u32,
    pub height: u32,
    pub channels: ChannelLayout,
    pub depth: SampleDepth,
    /// The EXIF orientation, where the container carries one.
    pub orientation: Option<Orientation>,
}

impl SourceInfo {
    /// Bytes per sample.
    pub open spec fn sample_bytes(self) -> nat {
        if self.depth is U16 {
            2
        } else {
            1
        }
    }

    /// Bytes per stored pixel.
    pub open spec fn pixel_bytes(self) -> nat {
        self.channels.channels() * self.sample_bytes()
    }

    /// The bytes of a full frame.
    pub open spec fn frame(self) -> int {
        self.width * self.height * self.pixel_bytes()
    }

    /// The orientation to undo.
    pub open spec fn turn(self) -> Orientation {
        match self.orientation {
            Some(o) => o,
            None => Orientation::TopLeft,
        }
    }

    /// Whether the lane decodes this source: 8-bit samples in any layout but
    /// CMYK with alpha, 16-bit samples in the grey and RGB layouts.
    pub open spec fn admitted(self) -> bool {
        &&& !(self.depth is Other)
        &&& !(self.channels is Cmyka)
        &&& self.depth is U16 ==> !(self.channels is Cmyk)
    }

    /// The refusal of a source that is not admitted.
    pub open spec fn refusal(self) -> Seq<char> {
        if self.depth is Other || (self.depth is U16 && self.channels is Cmyk) {
            "this codec lane reads 8-bit samples, and 16-bit samples outside CMYK"@
        } else {
            "CMYK+alpha placed images (no 5-channel ingest lane)"@
        }
    }
}

proof fn pixel_bytes_by_depth(info: SourceInfo)
    ensures
        info.pixel_bytes() == (if info.depth is U16 {
            2 * info.channels.channels()
        } else {
            info.channels.channels()
        }),
{
    assert(info.channels.channels() * 2 == 2 * info.channels.channels()) by (nonlinear_arith);
    assert(info.channels.channels() * 1 == info.channels.channels()) by (nonlinear_arith);
}

/// Admit or refuse a source before it is read: the bytes a full-frame read
/// fills, or the refusal. An unreadable depth is refused before the layout.
pub fn admit_source(info: &SourceInfo) -> (bytes: Result<u128, IngestError>)
    ensures
        bytes is Ok <==> info.admitted(),
        bytes matches Ok(n) ==> n == info.width * info.height * info.pixel_bytes(),
        bytes matches Err(e) ==> e.is_unsupported(info.refusal()),
{
    let cmyk: bool = matches!(info.channels, ChannelLayout::Cmyk);
    let readable: bool = match info.depth {
        SampleDepth::U8 => true,
        SampleDepth::U16 => !cmyk,
        SampleDepth::Other => false,
    };
    if !readable {
        return Err(
            unsupported("this codec lane reads 8-bit samples, and 16-bit samples outside CMYK"),
        );
    }
    if matches!(info.channels, ChannelLayout::Cmyka) {
        return Err(unsupported("CMYK+alpha placed images (no 5-channel ingest lane)"));
    }
    let count: usize = info.channels.count();
    let bytes: usize = match info.depth {
        SampleDepth::U16 => count * 2,
        _ => count,
    };
    proof {
        pixel_bytes_by_depth(*info);
    }
    Ok(crate::ingest::canvas_bytes(info.width, info.height, bytes))
}

/// The RGBA samples of stored samples: grey spreads over the three colours,
/// and a missing alpha is opaque.
pub open spec fn spread(buf: Seq<u8>, channels: ChannelLayout, wide: bool) -> Seq<u8> {
    match (channels, wide) {
        (ChannelLayout::Gray, false) => Seq::new(
            buf.len() * 4,
            |i: int|
                if i % 4 == 3 {
                    255
                } else {
                    buf[i / 4]
                },
        ),
        (ChannelLayout::GrayA, false) => Seq::new(
            buf.len() / 2 * 4,
            |i: int|
                if i % 4 == 3 {
                    buf[i / 4 * 2 + 1]
                } else {
                    buf[i / 4 * 2]
                },
        ),
        (ChannelLayout::Gray, true) => Seq::new(
            buf.len() / 2 * 8,
            |i: int|
                if i % 8 >= 6 {
                    255
                } else {
                    buf[i / 8 * 2 + i % 2]
                },
        ),
        (ChannelLayout::GrayA, true) => Seq::new(
            buf.len() / 4 * 8,
            |i: int|
                if i % 8 >= 6 {
                    buf[i / 8 * 4 + 2 + i % 2]
                } else {
                    buf[i / 8 * 4 + i % 2]
                },
        ),
        _ => buf,
    }
}

fn spread_gray(buf: &[u8]) -> (out: Vec<u8>)
    ensures
        out@ == spread(buf@, ChannelLayout::Gray, false),
{
    let mut out: Vec<u8> = Vec::new();
    let mut i: usize = 0;
    while i < buf.len()
        invariant
            i <= buf@.len(),
            out@.len() == 4 * i,
            forall|j: int|
                0 <= j < 4 * i ==> out@[j] == #[trigger] spread(
                    buf@,
                    ChannelLayout::Gray,
                    false,
                )[j],
        decreases buf@.len() - i,
    {
        let g: u8 = buf[i];
        out.push(g);
        out.push(g);
        out.push(g);
        out.push(255);
        i = i + 1;
    }
    proof {
        assert(out@ =~= spread(buf@, ChannelLayout::Gray, false));
    }
    out
}

fn spread_gray_alpha(buf: &[u8]) -> (out: Vec<u8>)
    ensures
        out@ == spread(buf@, ChannelLayout::GrayA, false),
{
    let mut out: Vec<u8> = Vec::new();
    let len: usize = buf.len();
    let n: usize = len / 2;
    let mut i: usize = 0;
    while i < n
        invariant
            len == buf@.len(),
            n == len / 2,
            i <= n,
            out@.len() == 4 * i,
            forall|j: int|
                0 <= j < 4 * i ==> out@[j] == #[trigger] spread(
                    buf@,
                    ChannelLayout::GrayA,
                    false,
                )[j],
        decreases n - i,
    {
        let g: u8 = buf[2 * i];
        out.push(g);
        out.push(g);
        out.push(g);
        out.push(buf[2 * i + 1]);
        i = i + 1;
    }
    proof {
        assert(out@ =~= spread(buf@, ChannelLayout::GrayA, false));
    }
    out
}

fn spread_gray16(buf: &[u8]) -> (out: Vec<u8>)
    ensures
        out@ == spread(buf@, ChannelLayout::Gray, true),
{
    let mut out: Vec<u8> = Vec::new();
    let len: usize = buf.len();
    let n: usize = len / 2;
    let mut i: usize = 0;
    while i < n
        invariant
            len == buf@.len(),
            n == len / 2,
            i <= n,
            out@.len() == 8 * i,
            forall|j: int|
                0 <= j < 8 * i ==> out@[j] == #[trigger] spread(
                    buf@,
                    ChannelLayout::Gray,
                    true,
                )[j],
        decreases n - i,
    {
        let lo: u8 = buf[2 * i];
        let hi: u8 = buf[2 * i + 1];
        out.push(lo);
        out.push(hi);
        out.push(lo);
        out.push(hi);
        out.push(lo);
        out.push(hi);
        out.push(255);
        out.push(255);
        i = i + 1;
    }
    proof {
        assert(out@ =~= spread(buf@, ChannelLayout::Gray, true));
    }
    out
}

fn spread_gray_alpha16(buf: &[u8]) -> (out: Vec<u8>)
    ensures
        out@ == spread(buf@, ChannelLayout::GrayA, true),
{
    let mut out: Vec<u8> = Vec::new();
    let len: usize = buf.len();
    let n: usize = len / 4;
    let mut i: usize = 0;
    while i < n
        invariant
            len == buf@.len(),
            n == len / 4,
            i <= n,
            out@.len() == 8 * i,
            forall|j: int|
                0 <= j < 8 * i ==> out@[j] == #[trigger] spread(
                    buf@,
                    ChannelLayout::GrayA,
                    true,
                )[j],
        decreases n - i,
    {
        let lo: u8 = buf[4 * i];
        let hi: u8 = buf[4 * i + 1];
        out.push(lo);
        out.push(hi);
        out.push(lo);
        out.push(hi);
        out.push(lo);
        out.push(hi);
        out.push(buf[4 * i + 2]);
        out.push(buf[4 * i + 3]);
        i = i + 1;
    }
    proof {
        assert(out@ =~= spread(buf@, ChannelLayout::GrayA, true));
    }
    out
}

/// Whether a conversion of the ink keeps the pixel count.
pub open spec fn ink_keeps_size(ink: InkOutcome, n: int) -> bool {
    ink matches InkOutcome::Applied(v) ==> v@.len() == n
}

/// A source turned into upright straight RGBA, ahead of the display transform.
#[derive(Debug)]
pub struct UprightSource {
    pub width: u32,
    pub height: u32,
    /// RGBA bytes at the source's depth.
    pub rgba: Vec<u8>,
    pub depth: SampleDepth,
    /// The treatment already settled by the ink cast; `None` where the display
    /// transform still has to run.
    pub settled: Option<DisplayTreatment>,
}

/// The RGBA bytes that an admitted source's full-frame read becomes, before it
/// is turned upright.
pub open spec fn source_rgba(info: SourceInfo, buf: Seq<u8>, ink: InkOutcome) -> Seq<u8> {
    if info.channels is Cmyk {
        match ink {
            InkOutcome::Applied(v) => v@,
            _ => crate::cmyk::device_rgba(buf),
        }
    } else {
        spread(buf, info.channels, info.depth is U16)
    }
}

/// The treatment an ink cast settles: managed only when the profile's
/// transform ran.
pub open spec fn ink_treatment(ink: InkOutcome) -> DisplayTreatment {
    match ink {
        InkOutcome::Applied(_) => DisplayTreatment::Managed,
        InkOutcome::Absent => DisplayTreatment::AssumedSrgb,
        _ => DisplayTreatment::ProfileRejected,
    }
}

/// Whether a source stands upright, ahead of the display transform.
pub open spec fn turned(info: SourceInfo, buf: Seq<u8>, ink: InkOutcome, s: UprightSource) -> bool {
    let (w, h) = (info.width as int, info.height as int);
    &&& s.rgba@ == crate::orientation::upright(
        source_rgba(info, buf, ink),
        4 * info.sample_bytes(),
        w,
        h,
        info.turn(),
    )
    &&& s.width == info.turn().upright_width(w, h)
    &&& s.height == info.turn().upright_height(w, h)
    &&& s.depth == info.depth
    &&& s.settled == (if info.channels is Cmyk {
        Some(ink_treatment(ink))
    } else {
        None
    })
}

/// Turn an admitted source's full-frame read into upright straight RGBA.
///
/// `ink` is what the colour engine made of a CMYK source's profile; it is not
/// consulted for other layouts. The only failure is a colour engine without a
/// working destination profile.
pub fn upright_source(info: &SourceInfo, buf: Vec<u8>, ink: InkOutcome) -> (source: Result<
    UprightSource,
    IngestError,
>)
    requires
        info.admitted(),
        buf@.len() == info.width * info.height * info.pixel_bytes(),
        info.channels is Cmyk ==> ink_keeps_size(ink, buf@.len() as int),
    ensures
        source is Err <==> info.channels is Cmyk && ink is NoDestination,
        source matches Err(e) ==> e.is_unsupported(
            "CMYK ingest destination: "@ + ink->NoDestination_0@,
        ),
        source matches Ok(s) ==> turned(*info, buf@, ink, s),
{
    let wide: bool = matches!(info.depth, SampleDepth::U16);
    let size: usize = if wide {
        8
    } else {
        4
    };
    let turn: Orientation = match info.orientation {
        Some(o) => o,
        None => Orientation::TopLeft,
    };
    let ghost n = info.width * info.height;
    proof {
        pixel_bytes_by_depth(*info);
        let unit = info.pixel_bytes() as int;
        assert(n * unit == (if unit == 1 { n } else if unit == 2 { 2 * n } else if unit == 4 { 4 * n } else if unit == 8 { 8 * n } else { n * unit })) by (nonlinear_arith);
        assert(n * size == (if size == 4 { 4 * n } else if size == 8 { 8 * n } else { n * size })) by (nonlinear_arith);
    }
    let ghost stored = buf@;
    let mut settled: Option<DisplayTreatment> = None;
    let rgba: Vec<u8> = match info.channels {
        ChannelLayout::Rgba => buf,
        ChannelLayout::Gray => if wide {
            spread_gray16(buf.as_slice())
        } else {
            spread_gray(buf.as_slice())
        },
        ChannelLayout::GrayA => if wide {
            spread_gray_alpha16(buf.as_slice())
        } else {
            spread_gray_alpha(buf.as_slice())
        },
        ChannelLayout::Cmyk => {
            settled =
            Some(
                match ink {
                    InkOutcome::Applied(_) => DisplayTreatment::Managed,
                    InkOutcome::Absent => DisplayTreatment::AssumedSrgb,
                    _ => DisplayTreatment::ProfileRejected,
                },
            );
            match crate::cmyk::cmyk8_to_rgba8(buf.as_slice(), ink) {
                Ok((v, _)) => v,
                Err(e) => {
                    return Err(e);
                },
            }
        },
        ChannelLayout::Cmyka => buf,
    };
    proof {
        assert(rgba@ == source_rgba(*info, stored, ink));
        assert(rgba@.len() == n * size);
    }
    let (rgba, width, height) = crate::orientation::orient(
        rgba,
        size,
        info.width,
        info.height,
        turn,
    );
    Ok(UprightSource { width, height, rgba, depth: info.depth, settled })
}

/// Whether an upright source became this image.
pub open spec fn finished(
    source: UprightSource,
    profile: ProfileOutcome,
    image: DecodedImage,
) -> bool {
    &&& image.width == source.width
    &&& image.height == source.height
    &&& !image.depth_reduced
    &&& image.rgba.sample_depth() == source.depth
    &&& match source.settled {
        Some(t) => image.display == t && image.rgba.stored() == source.rgba@,
        None => (image.rgba.stored(), image.display) == crate::display::settled(
            source.rgba@,
            profile,
        ),
    }
}

/// Finish a decode: settle the display treatment and wrap the pixels at their
/// own depth. Nothing was narrowed on the way, so nothing claims it was.
///
/// `profile` is what the colour engine made of the embedded profile; it is not
/// consulted where the ink cast settled the treatment already.
pub fn finish_source(source: UprightSource, profile: ProfileOutcome) -> (image: DecodedImage)
    ensures
        finished(source, profile, image),
{
    let mut rgba: Vec<u8> = source.rgba;
    let display: DisplayTreatment = match source.settled {
        Some(t) => t,
        None => crate::display::to_working_srgb(&mut rgba, profile),
    };
    DecodedImage {
        width: source.width,
        height: source.height,
        rgba: Pixels::from_raw(rgba, source.depth),
        display,
        depth_reduced: false,
    }
}

/// The engines that a decode asks, each of them handed the file's bytes: the
/// codec's full-frame read, the ink cast of an embedded profile, and its display
/// transform.
pub struct Lane<R, I, D> {
    /// A full frame of this many bytes, or why there is none.
    pub read: R,
    /// A frame of ink through the file's profile.
    pub ink: I,
    /// Upright pixels through the file's profile.
    pub display: D,
}

impl<
    R: Fn(Format, &[u8], usize) -> Result<Vec<u8>, String>,
    I: Fn(&[u8], &Vec<u8>) -> InkOutcome,
    D: Fn(&[u8], &Vec<u8>) -> ProfileOutcome,
> Lane<R, I, D> {
    /// Whether the engines take everything, and keep the size of what they are
    /// given.
    pub open spec fn total(self) -> bool {
        &&& forall|f: Format, bytes: &[u8], n: usize| #[trigger] self.read.requires((f, bytes, n))
        &&& forall|f: Format, bytes: &[u8], n: usize, buf: Vec<u8>| #[trigger]
            self.read.ensures((f, bytes, n), Ok(buf)) ==> buf@.len() == n
        &&& forall|bytes: &[u8], buf: Vec<u8>| #[trigger] self.ink.requires((bytes, &buf))
        &&& forall|bytes: &[u8], buf: Vec<u8>, cast: InkOutcome| #[trigger]
            self.ink.ensures((bytes, &buf), cast) ==> ink_keeps_size(cast, buf@.len() as int)
        &&& forall|bytes: &[u8], buf: Vec<u8>| #[trigger] self.display.requires((bytes, &buf))
        &&& forall|bytes: &[u8], buf: Vec<u8>, v: Vec<u8>| #[trigger]
            self.display.ensures((bytes, &buf), ProfileOutcome::Applied(v)) ==> v@.len()
                == buf@.len()
    }

    /// Whether `cast` is what the engine made of the ink; other layouts have
    /// none.
    pub open spec fn casts(
        self,
        bytes: &[u8],
        info: SourceInfo,
        buf: Vec<u8>,
        cast: InkOutcome,
    ) -> bool {
        if info.channels is Cmyk {
            self.ink.ensures((bytes, &buf), cast)
        } else {
            cast is Absent
        }
    }

    /// Whether `profile` is what the engine made of the upright pixels; where
    /// the ink cast settled the treatment it is not asked.
    pub open spec fn transforms(
        self,
        bytes: &[u8],
        s: UprightSource,
        profile: ProfileOutcome,
    ) -> bool {
        if s.settled is None {
            self.display.ensures((bytes, &s.rgba), profile)
        } else {
            profile is Absent
        }
    }

    /// Whether a read of an admitted source became this image.
    pub open spec fn decodes(
        self,
        bytes: &[u8],
        info: SourceInfo,
        buf: Vec<u8>,
        image: DecodedImage,
    ) -> bool {
        exists|cast: InkOutcome, s: UprightSource, profile: ProfileOutcome|
            #![trigger turned(info, buf@, cast, s), finished(s, profile, image)]
            self.casts(bytes, info, buf, cast) && turned(info, buf@, cast, s) && self.transforms(
                bytes,
                s,
                profile,
            ) && finished(s, profile, image)
    }

    /// Whether the ink of a read has no destination to be cast to.
    pub open spec fn uncastable(
        self,
        bytes: &[u8],
        info: SourceInfo,
        buf: Vec<u8>,
        e: IngestError,
    ) -> bool {
        exists|text: String| #[trigger]
            self.casts(bytes, info, buf, InkOutcome::NoDestination(text)) && info.channels is Cmyk
                && e.is_unsupported("CMYK ingest destination: "@ + text@)
    }

    /// Whether a source of this kind decodes to `image`: an inadmissible one is
    /// refused unread, and a failed read is a decode error in the codec's words.
    pub open spec fn delivers(
        self,
        format: Format,
        bytes: &[u8],
        info: SourceInfo,
        image: Result<DecodedImage, IngestError>,
    ) -> bool {
        if !info.admitted() {
            image matches Err(e) && e.is_unsupported(info.refusal())
        } else {
            exists|outcome: Result<Vec<u8>, String>|
                #![trigger self.read.ensures((format, bytes, info.frame() as usize), outcome)]
                self.read.ensures((format, bytes, info.frame() as usize), outcome) && (match (outcome, image) {
                    (Err(text), Err(e)) => e.is_decode(text@),
                    (Ok(buf), Ok(i)) => self.decodes(bytes, info, buf, i),
                    (Ok(buf), Err(e)) => self.uncastable(bytes, info, buf, e),
                    (Err(_), Ok(_)) => false,
                })
        }
    }

    /// Decode a source: admit it, read it, cast its ink or spread its samples,
    /// turn it upright and settle its display treatment.
    pub fn decode_source(&self, format: Format, bytes: &[u8], info: &SourceInfo) -> (image: Result<
        DecodedImage,
        IngestError,
    >)
        requires
            self.total(),
            info.admitted() ==> info.frame() <= usize::MAX,
        ensures
            self.delivers(format, bytes, *info, image),
            image matches Ok(i) ==> i.sized(),
    {
        let want: u128 = match admit_source(info) {
            Ok(n) => n,
            Err(e) => {
                return Err(e);
            },
        };
        let n: usize = want as usize;
        assert(n == info.frame() as usize);
        let read = &self.read;
        let outcome: Result<Vec<u8>, String> = read(format, bytes, n);
        assert(self.read.ensures((format, bytes, info.frame() as usize), outcome));
        let buf: Vec<u8> = match outcome {
            Ok(b) => b,
            Err(text) => {
                return Err(IngestError::Decode(text));
            },
        };
        let ghost held = buf;
        let cast: InkOutcome = match info.channels {
            ChannelLayout::Cmyk => {
                let ink = &self.ink;
                ink(bytes, &buf)
            },
            _ => InkOutcome::Absent,
        };
        let ghost made = cast;
        assert(self.casts(bytes, *info, held, made));
        let upright: UprightSource = match upright_source(info, buf, cast) {
            Ok(s) => s,
            Err(e) => {
                proof {
                    let text = made->NoDestination_0;
                    assert(self.casts(bytes, *info, held, InkOutcome::NoDestination(text)));
                    assert(self.uncastable(bytes, *info, held, e));
                }
                return Err(e);
            },
        };
        let ghost s = upright;
        let profile: ProfileOutcome = match upright.settled {
            None => {
                let display = &self.display;
                display(bytes, &upright.rgba)
            },
            Some(_) => ProfileOutcome::Absent,
        };
        let ghost settled = profile;
        let image: DecodedImage = finish_source(upright, profile);
        proof {
            assert(turned(*info, held@, made, s) && finished(s, settled, image));
            assert(self.decodes(bytes, *info, held, image));
            lemma_upright_is_sized(*info, held@, made, s);
        }
        Ok(image)
    }
}

/// The RGBA bytes of an admitted source cover its extent.
proof fn lemma_rgba_is_sized(info: SourceInfo, buf: Seq<u8>, ink: InkOutcome, n: int)
    requires
        info.admitted(),
        0 <= n,
        buf.len() == n * info.pixel_bytes(),
        info.channels is Cmyk ==> ink_keeps_size(ink, buf.len() as int),
    ensures
        source_rgba(info, buf, ink).len() == (if info.depth is U16 {
            8 * n
        } else {
            4 * n
        }),
{
    pixel_bytes_by_depth(info);
    let unit = info.pixel_bytes() as int;
    assert(unit == 1 || unit == 2 || unit == 4 || unit == 8);
    assert(unit == 1 ==> n * unit == n) by (nonlinear_arith);
    assert(unit == 2 ==> n * unit == 2 * n) by (nonlinear_arith);
    assert(unit == 4 ==> n * unit == 4 * n) by (nonlinear_arith);
    assert(unit == 8 ==> n * unit == 8 * n) by (nonlinear_arith);
}

/// An upright source covers its extent.
proof fn lemma_upright_is_sized(info: SourceInfo, buf: Seq<u8>, ink: InkOutcome, s: UprightSource)
    requires
        info.admitted(),
        buf.len() == info.frame(),
        info.channels is Cmyk ==> ink_keeps_size(ink, buf.len() as int),
        turned(info, buf, ink, s),
    ensures
        s.rgba@.len() == s.width * s.height * (4 * info.sample_bytes()),
{
    let (w, h) = (info.width as int, info.height as int);
    let n = w * h;
    assert(0 <= n && n == h * w) by (nonlinear_arith)
        requires
            n == w * h,
            0 <= w,
            0 <= h,
    ;
    lemma_rgba_is_sized(info, buf, ink, n);
    let size = 4 * info.sample_bytes();
    assert(s.width * s.height == n) by {
        assert((s.width == w && s.height == h) || (s.width == h && s.height == w));
    }
    let count = s.width * s.height;
    assert(count * size == size * n) by (nonlinear_arith)
        requires
            count == n,
    ;
    assert(size == 4 ==> size * n == 4 * n) by (nonlinear_arith);
    assert(size == 8 ==> size * n == 8 * n) by (nonlinear_arith);
}

/// Why a layered file has no merged composite.
#[derive(Debug)]
pub enum PsdRefusal {
    /// Something the reader does not support.
    Unsupported(String),
    /// Anything else, in the reader's words.
    Other(String),
}

/// A merged composite.
#[derive(Debug)]
pub struct PsdComposite {
    pub width: u32,
    pub height: u32,
    pub rgba: Vec<u8>,
    pub depth_reduced: bool,
}

/// Whether a merged composite became this image, untouched, with its treatment
/// stated as assumed.
pub open spec fn merged(
    composite: Result<PsdComposite, PsdRefusal>,
    image: Result<DecodedImage, IngestError>,
) -> bool {
    match (composite, image) {
        (Ok(c), Ok(i)) => {
            &&& i.width == c.width
            &&& i.height == c.height
            &&& i.rgba.stored() == c.rgba@
            &&& i.rgba.sample_depth() is U8
            &&& i.display is AssumedSrgb
            &&& i.depth_reduced == c.depth_reduced
        },
        (Err(PsdRefusal::Unsupported(text)), Err(e)) => e.is_unsupported(text@),
        (Err(PsdRefusal::Other(text)), Err(e)) => e.is_decode(text@),
        _ => false,
    }
}

/// The image that a layered file's merged composite becomes.
pub fn decode_psd(composite: Result<PsdComposite, PsdRefusal>) -> (image: Result<
    DecodedImage,
    IngestError,
>)
    ensures
        merged(composite, image),
{
    match composite {
        Ok(c) => Ok(
            DecodedImage::from_psd_composite(c.width, c.height, c.rgba, c.depth_reduced),
        ),
        Err(PsdRefusal::Unsupported(text)) => Err(IngestError::Unsupported(text)),
        Err(PsdRefusal::Other(text)) => Err(IngestError::Decode(text)),
    }
}

/// The sentence for bytes of no known container.
pub open spec fn unrecognized() -> Seq<char> {
    "unrecognized image container (PSD/PNG/JPEG in the M4 slice)"@
}

/// Whether opening a file gives `image`: a layered file its merged composite, a
/// raster file what its header and its frame decode to.
pub open spec fn opens<
    C: Fn(&[u8]) -> Result<PsdComposite, PsdRefusal>,
    B: Fn(Format, &[u8]) -> Result<SourceInfo, String>,
    R: Fn(Format, &[u8], usize) -> Result<Vec<u8>, String>,
    I: Fn(&[u8], &Vec<u8>) -> InkOutcome,
    D: Fn(&[u8], &Vec<u8>) -> ProfileOutcome,
>(
    bytes: &[u8],
    psd: C,
    probe: B,
    lane: Lane<R, I, D>,
    image: Result<DecodedImage, IngestError>,
) -> bool {
    match sniffed(bytes@) {
        None => image matches Err(e) && e.is_unsupported(unrecognized()),
        Some(Format::Psd) => exists|c: Result<PsdComposite, PsdRefusal>| #[trigger]
            psd.ensures((bytes,), c) && merged(c, image),
        Some(f) => exists|header: Result<SourceInfo, String>| #[trigger]
            probe.ensures((f, bytes), header) && (match header {
                Ok(info) => lane.delivers(f, bytes, info, image),
                Err(text) => image matches Err(e) && e.is_decode(text@),
            }),
    }
}

/// Decode PSD, PNG or JPEG bytes, recognised by their magic number. `psd` reads
/// the merged composite of the bytes and `probe` their header.
pub fn decode_rgba8<
    C: Fn(&[u8]) -> Result<PsdComposite, PsdRefusal>,
    B: Fn(Format, &[u8]) -> Result<SourceInfo, String>,
    R: Fn(Format, &[u8], usize) -> Result<Vec<u8>, String>,
    I: Fn(&[u8], &Vec<u8>) -> InkOutcome,
    D: Fn(&[u8], &Vec<u8>) -> ProfileOutcome,
>(bytes: &[u8], psd: &C, probe: &B, lane: &Lane<R, I, D>) -> (image: Result<
    DecodedImage,
    IngestError,
>)
    requires
        lane.total(),
        psd.requires((bytes,)),
        forall|c: PsdComposite| #[trigger]
            psd.ensures((bytes,), Ok(c)) ==> c.rgba@.len() == c.width * c.height * 4,
        forall|f: Format| #[trigger] probe.requires((f, bytes)),
        forall|f: Format, info: SourceInfo| #[trigger]
            probe.ensures((f, bytes), Ok(info)) && info.admitted() ==> info.frame() <= usize::MAX,
    ensures
        image matches Ok(i) ==> i.sized(),
        opens(bytes, *psd, *probe, *lane, image),
{
    let format: Format = match decoder_for(bytes) {
        Ok(f) => f,
        Err(e) => {
            return Err(e);
        },
    };
    if format == Format::Psd {
        let composite: Result<PsdComposite, PsdRefusal> = psd(bytes);
        let ghost c = composite;
        assert(psd.ensures((bytes,), c));
        return decode_psd(composite);
    }
    let header: Result<SourceInfo, String> = probe(format, bytes);
    assert(probe.ensures((format, bytes), header));
    match header {
        Ok(info) => lane.decode_source(format, bytes, &info),
        Err(text) => Err(IngestError::Decode(text)),
    }
}

/// A stored pixel keeps its samples: grey counts for red, green and blue alike, an
/// alpha stays an alpha and a missing one is opaque, at either depth and byte for
/// byte.
pub proof fn a_stored_pixel_keeps_its_samples(buf: Seq<u8>, p: int, b: int)
    requires
        0 <= p,
        0 <= b < 2,
    ensures
        p < buf.len() ==> ({
            let out = spread(buf, ChannelLayout::Gray, false);
            &&& out[4 * p] == buf[p] && out[4 * p + 1] == buf[p] && out[4 * p + 2] == buf[p]
            &&& out[4 * p + 3] == 255
        }),
        2 * p + 1 < buf.len() ==> ({
            let out = spread(buf, ChannelLayout::GrayA, false);
            &&& out[4 * p] == buf[2 * p] && out[4 * p + 1] == buf[2 * p] && out[4 * p + 2] == buf[2
                * p]
            &&& out[4 * p + 3] == buf[2 * p + 1]
        }),
        2 * p + 1 < buf.len() ==> ({
            let out = spread(buf, ChannelLayout::Gray, true);
            &&& out[8 * p + b] == buf[2 * p + b]
            &&& out[8 * p + 2 + b] == buf[2 * p + b]
            &&& out[8 * p + 4 + b] == buf[2 * p + b]
            &&& out[8 * p + 6 + b] == 255
        }),
        4 * p + 3 < buf.len() ==> ({
            let out = spread(buf, ChannelLayout::GrayA, true);
            &&& out[8 * p + b] == buf[4 * p + b]
            &&& out[8 * p + 2 + b] == buf[4 * p + b]
            &&& out[8 * p + 4 + b] == buf[4 * p + b]
            &&& out[8 * p + 6 + b] == buf[4 * p + 2 + b]
        }),
        spread(buf, ChannelLayout::Rgba, false) == buf,
        spread(buf, ChannelLayout::Rgba, true) == buf,
{
}

/// A file is named by how it begins, and by nothing behind that: `8BPS`, the byte 0x89
/// and `PNG`, or the bytes 0xff, 0xd8 and 0xff; any other file has no name.
pub proof fn a_file_is_named_by_how_it_begins(bytes: Seq<u8>)
    ensures
        sniffed(bytes) == Some(Format::Psd) <==> bytes.len() >= 4 && bytes[0] == 0x38 && bytes[1]
            == 0x42 && bytes[2] == 0x50 && bytes[3] == 0x53,
        sniffed(bytes) == Some(Format::Png) <==> bytes.len() >= 4 && bytes[0] == 0x89 && bytes[1]
            == 0x50 && bytes[2] == 0x4e && bytes[3] == 0x47,
        sniffed(bytes) == Some(Format::Jpeg) <==> bytes.len() >= 3 && bytes[0] == 0xff && bytes[1]
            == 0xd8 && bytes[2] == 0xff,
{
    lemma_begins(bytes, seq![0x38u8, 0x42, 0x50, 0x53]);
    lemma_begins(bytes, seq![0x89u8, 0x50, 0x4e, 0x47]);
    lemma_begins(bytes, seq![0xffu8, 0xd8, 0xff]);
}

proof fn lemma_begins(bytes: Seq<u8>, magic: Seq<u8>)
    ensures
        begins(bytes, magic) <==> bytes.len() >= magic.len() && forall|i: int|
            0 <= i < magic.len() ==> bytes[i] == #[trigger] magic[i],
{
    if bytes.len() >= magic.len() {
        if bytes.take(magic.len() as int) == magic {
            assert forall|i: int| 0 <= i < magic.len() implies bytes[i] == #[trigger] magic[i] by {
                assert(bytes.take(magic.len() as int)[i] == bytes[i]);
            }
        } else if forall|i: int| 0 <= i < magic.len() ==> bytes[i] == #[trigger] magic[i] {
            assert(bytes.take(magic.len() as int) =~= magic);
        }
    }
}

/// A source keeps its extent and its depth. Where its inks decided how it is shown, a
/// profile changes nothing more; elsewhere the pixels change only where the profile
/// was applied.
pub proof fn a_finished_source_keeps_its_extent(
    source: UprightSource,
    profile: ProfileOutcome,
    image: DecodedImage,
)
    requires
        finished(source, profile, image),
    ensures
        image.width == source.width,
        image.height == source.height,
        image.rgba.sample_depth() == source.depth,
        source.settled is Some ==> image.display == source.settled->0 && image.rgba.stored()
            == source.rgba@,
        source.settled is None && !(profile is Applied) ==> image.rgba.stored() == source.rgba@,
        source.settled is None ==> (match profile {
            ProfileOutcome::Absent => image.display is AssumedSrgb,
            ProfileOutcome::Rejected => image.display is ProfileRejected,
            ProfileOutcome::Applied(p) => image.display is Managed && image.rgba.stored() == p@,
        }),
{
}

} // verus!
