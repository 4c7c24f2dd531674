//! A pixel buffer that knows its own depth.
//!
//! The depth travels with the bytes, and a reader has to say which view it
//! wants: the raw bytes, an 8-bit view, or one sample at 16 bits.
use std::sync::Arc;
use vstd::prelude::*;

verus! {

/// The number of bits a stored sample has.
#[derive(Debug, Clone, Copy, PartialEq, Eq, Structural)]
pub enum SampleDepth {
    U8,
    U16,
    /// A depth no pixel buffer stores; codecs may still report it.
    Other,
}

/// Which byte of a 16-bit sample comes first in memory.
#[derive(Debug, Clone, Copy, PartialEq, Eq, Structural)]
pub enum ByteOrder {
    LowFirst,
    HighFirst,
}

/// `u16::to_ne_bytes` gives the two bytes of a number in the machine's order:
/// the low one first on some machines, the high one first on the others. Which
/// of them this machine is, is not said.
#[verifier::external_body]
fn native_bytes(x: u16) -> (bytes: [u8; 2])
    ensures
        bytes@ == seq![(x % 256) as u8, (x / 256) as u8] || bytes@ == seq![
            (x / 256) as u8,
            (x % 256) as u8,
        ],
{
    x.to_ne_bytes()
}

/// The order that two bytes of the number one show.
pub fn order_shown(one: [u8; 2]) -> (order: ByteOrder)
    ensures
        order is LowFirst <==> one@[0] == 1,
{
    if one[0] == 1 {
        ByteOrder::LowFirst
    } else {
        ByteOrder::HighFirst
    }
}

/// The machine's byte order.
fn native_order() -> (order: ByteOrder) {
    order_shown(native_bytes(1))
}

/// Straight (not premultiplied) RGBA at 8 or 16 bits per sample.
#[derive(Debug)]
pub struct Pixels {
    /// Tightly packed RGBA. A 16-bit sample is a pair of bytes in the machine's
    /// order.
    bytes: Arc<Vec<u8>>,
    depth: SampleDepth,
    order: ByteOrder,
}

/// An 8-bit view of a pixel buffer: the buffer itself, or a narrowed copy.
#[derive(Debug)]
pub enum Rgba8<'a> {
    Borrowed(&'a [u8]),
    Owned(Vec<u8>),
}

impl<'a> Rgba8<'a> {
    /// The bytes of the view.
    pub open spec fn bytes(self) -> Seq<u8> {
        match self {
            Rgba8::Borrowed(b) => b@,
            Rgba8::Owned(v) => v@,
        }
    }

    /// The bytes of the view.
    pub fn as_slice(&self) -> (bytes: &[u8])
        ensures
            bytes@ == self.bytes(),
    {
        match self {
            Rgba8::Borrowed(b) => b,
            Rgba8::Owned(v) => v.as_slice(),
        }
    }
}

/// The byte pairs of 16-bit samples.
pub open spec fn packed(samples: Seq<u16>, order: ByteOrder) -> Seq<u8> {
    Seq::new(
        2 * samples.len(),
        |i: int|
            if (i % 2 == 0) == (order is LowFirst) {
                (samples[i / 2] % 256) as u8
            } else {
                (samples[i / 2] / 256) as u8
            },
    )
}

/// Where the high byte of a pair stands.
pub open spec fn high_place(order: ByteOrder) -> int {
    if order is LowFirst {
        1
    } else {
        0
    }
}

/// The high bytes of 16-bit samples.
pub open spec fn high_bytes(bytes: Seq<u8>, order: ByteOrder) -> Seq<u8> {
    Seq::new(bytes.len() / 2, |i: int| bytes[2 * i + high_place(order)])
}

/// The 16-bit sample whose pair starts at `i`.
pub open spec fn sample_at(bytes: Seq<u8>, i: int, order: ByteOrder) -> u16 {
    (bytes[i + 1 - high_place(order)] + 256 * bytes[i + high_place(order)]) as u16
}

impl Pixels {
    /// The stored bytes.
    pub closed spec fn stored(self) -> Seq<u8> {
        self.bytes@
    }

    /// The depth of the stored samples.
    pub closed spec fn sample_depth(self) -> SampleDepth {
        self.depth
    }

    /// The byte order of 16-bit samples.
    pub closed spec fn byte_order(self) -> ByteOrder {
        self.order
    }

    /// Bytes per pixel.
    pub open spec fn stride(self) -> nat {
        if self.sample_depth() is U16 {
            8
        } else {
            4
        }
    }

    /// The 8-bit view: the bytes themselves, or the high byte of each 16-bit
    /// sample.
    pub open spec fn narrow(self) -> Seq<u8> {
        if self.sample_depth() is U16 {
            high_bytes(self.stored(), self.byte_order())
        } else {
            self.stored()
        }
    }

    /// One channel of one pixel at 16 bits. An 8-bit `v` becomes `v·257`, so
    /// that white stays white.
    pub open spec fn sample(self, pixel: int, channel: int) -> u16 {
        if self.sample_depth() is U16 {
            sample_at(self.stored(), 8 * pixel + 2 * channel, self.byte_order())
        } else {
            (257 * self.stored()[4 * pixel + channel]) as u16
        }
    }

    /// Whether the buffer holds exactly a canvas of `w × h` pixels.
    pub open spec fn covers(self, w: u32, h: u32) -> bool {
        self.stored().len() == w * h * self.stride()
    }

    /// Wrap an existing 8-bit buffer, sharing its allocation.
    pub fn from_rgba8(bytes: Arc<Vec<u8>>) -> (pixels: Pixels)
        ensures
            pixels.stored() == bytes@,
            pixels.sample_depth() is U8,
    {
        Pixels { bytes, depth: SampleDepth::U8, order: native_order() }
    }

    /// Wrap freshly made 8-bit bytes.
    pub fn from_vec(bytes: Vec<u8>) -> (pixels: Pixels)
        ensures
            pixels.stored() == bytes@,
            pixels.sample_depth() is U8,
    {
        Pixels { bytes: Arc::new(bytes), depth: SampleDepth::U8, order: native_order() }
    }

    /// Wrap 16-bit samples, packed to byte pairs in the machine's order.
    pub fn from_rgba16(samples: &[u16]) -> (pixels: Pixels)
        ensures
            pixels.stored() == packed(samples@, pixels.byte_order()),
            pixels.sample_depth() is U16,
    {
        Pixels::from_rgba16_in(samples, native_order())
    }

    /// Wrap 16-bit samples, packed to byte pairs in an order.
    pub fn from_rgba16_in(samples: &[u16], order: ByteOrder) -> (pixels: Pixels)
        ensures
            pixels.stored() == packed(samples@, order),
            pixels.sample_depth() is U16,
            pixels.byte_order() == order,
    {
        let mut b: Vec<u8> = Vec::new();
        let mut i: usize = 0;
        while i < samples.len()
            invariant
                i <= samples@.len(),
                b@.len() == 2 * i,
                forall|j: int| 0 <= j < 2 * i ==> b@[j] == #[trigger] packed(samples@, order)[j],
            decreases samples@.len() - i,
        {
            let s: u16 = samples[i];
            let (low, high): (u8, u8) = ((s % 256) as u8, (s / 256) as u8);
            match order {
                ByteOrder::LowFirst => {
                    b.push(low);
                    b.push(high);
                },
                ByteOrder::HighFirst => {
                    b.push(high);
                    b.push(low);
                },
            }
            i = i + 1;
        }
        proof {
            assert(b@ =~= packed(samples@, order));
        }
        Pixels { bytes: Arc::new(b), depth: SampleDepth::U16, order }
    }

    /// Re-wrap bytes that are already at `depth`, as a caller does that took
    /// the raw bytes apart and puts them back.
    pub fn from_raw(bytes: Vec<u8>, depth: SampleDepth) -> (pixels: Pixels)
        ensures
            pixels.stored() == bytes@,
            pixels.sample_depth() == depth,
    {
        Pixels { bytes: Arc::new(bytes), depth, order: native_order() }
    }

    pub fn depth(&self) -> (depth: SampleDepth)
        ensures
            depth == self.sample_depth(),
    {
        self.depth
    }

    pub fn is_16bit(&self) -> (wide: bool)
        ensures
            wide <==> self.sample_depth() is U16,
    {
        matches!(self.depth, SampleDepth::U16)
    }

    /// 8 at 16 bits, 4 otherwise.
    pub fn bytes_per_pixel(&self) -> (n: usize)
        ensures
            n == self.stride(),
    {
        match self.depth {
            SampleDepth::U16 => 8,
            _ => 4,
        }
    }

    pub fn pixel_count(&self) -> (n: usize)
        ensures
            n == self.stored().len() / self.stride(),
    {
        self.bytes.len() / self.bytes_per_pixel()
    }

    /// The raw bytes at their own depth.
    pub fn raw(&self) -> (bytes: &[u8])
        ensures
            bytes@ == self.stored(),
    {
        self.bytes.as_slice()
    }

    /// The shared allocation itself.
    pub fn raw_arc(&self) -> (bytes: Arc<Vec<u8>>)
        ensures
            bytes@ == self.stored(),
    {
        Arc::clone(&self.bytes)
    }

    /// An 8-bit view, narrowing by the high byte when the buffer is 16-bit and
    /// borrowing otherwise.
    pub fn to_rgba8(&self) -> (view: Rgba8<'_>)
        ensures
            view.bytes() == self.narrow(),
            view is Owned <==> self.sample_depth() is U16,
    {
        match self.depth {
            SampleDepth::U16 => {
                let len: usize = self.bytes.len();
                let n: usize = len / 2;
                let place: usize = match self.order {
                    ByteOrder::LowFirst => 1,
                    ByteOrder::HighFirst => 0,
                };
                let mut out: Vec<u8> = Vec::new();
                let mut i: usize = 0;
                while i < n
                    invariant
                        place == high_place(self.byte_order()),
                        len == self.stored().len(),
                        n == len / 2,
                        i <= n,
                        out@.len() == i,
                        forall|j: int| 0 <= j < i ==> out@[j] == #[trigger] high_bytes(
                            self.stored(),
                            self.byte_order(),
                        )[j],
                    decreases n - i,
                {
                    out.push(self.bytes[2 * i + place]);
                    i = i + 1;
                }
                proof {
                    assert(out@ =~= high_bytes(self.stored(), self.byte_order()));
                }
                Rgba8::Owned(out)
            },
            _ => Rgba8::Borrowed(self.bytes.as_slice()),
        }
    }

    /// One channel of one pixel, widened to 16 bits whatever the store.
    pub fn sample16(&self, pixel: usize, channel: usize) -> (v: u16)
        requires
            channel < 4,
            self.stride() * pixel + self.stride() <= self.stored().len(),
        ensures
            v == self.sample(pixel as int, channel as int),
    {
        let len: usize = self.bytes.len();
        match self.depth {
            SampleDepth::U16 => {
                let i: usize = pixel * 8 + channel * 2;
                let (a, b): (u16, u16) = (self.bytes[i] as u16, self.bytes[i + 1] as u16);
                match self.order {
                    ByteOrder::LowFirst => a + 256 * b,
                    ByteOrder::HighFirst => b + 256 * a,
                }
            },
            _ => 257 * self.bytes[pixel * 4 + channel] as u16,
        }
    }

    pub fn len(&self) -> (n: usize)
        ensures
            n == self.stored().len(),
    {
        self.bytes.len()
    }

    pub fn is_empty(&self) -> (empty: bool)
        ensures
            empty <==> self.stored().len() == 0,
    {
        self.bytes.len() == 0
    }
}

impl Clone for Pixels {
    fn clone(&self) -> (copy: Self)
        ensures
            copy == *self,
    {
        Pixels { bytes: Arc::clone(&self.bytes), depth: self.depth, order: self.order }
    }
}

/// The 16-bit samples of an 8-bit buffer.
pub open spec fn widened_samples(bytes: Seq<u8>) -> Seq<u16> {
    Seq::new(bytes.len(), |i: int| (257 * bytes[i]) as u16)
}

/// An 8-bit buffer widened to 16 bits and narrowed again is unchanged, whichever
/// byte comes first.
pub proof fn narrowing_undoes_widening(bytes: Seq<u8>, order: ByteOrder)
    ensures
        high_bytes(packed(widened_samples(bytes), order), order) == bytes,
{
    let wide = packed(widened_samples(bytes), order);
    assert forall|i: int| 0 <= i < bytes.len() implies high_bytes(wide, order)[i] == bytes[i] by {
        assert((2 * i + 1) / 2 == i && (2 * i + 1) % 2 == 1);
        assert((2 * i) / 2 == i && (2 * i) % 2 == 0);
        assert(widened_samples(bytes)[i] / 256 == bytes[i]);
    }
    assert(high_bytes(wide, order) =~= bytes);
}

/// A packed sample reads back unchanged, whichever byte comes first.
pub proof fn packed_sample_reads_back(samples: Seq<u16>, i: int, order: ByteOrder)
    requires
        0 <= i < samples.len(),
    ensures
        sample_at(packed(samples, order), 2 * i, order) == samples[i],
{
    assert((2 * i) / 2 == i && (2 * i + 1) / 2 == i && (2 * i + 1) % 2 == 1 && (2 * i) % 2 == 0);
}

/// Black stays black and white stays white through a widening.
pub proof fn widening_keeps_the_ends(bytes: Seq<u8>, i: int)
    requires
        0 <= i < bytes.len(),
    ensures
        bytes[i] == 0 ==> widened_samples(bytes)[i] == 0,
        bytes[i] == 255 ==> widened_samples(bytes)[i] == 65535,
{
}

/// The 8-bit view of a sample is its upper half, at either depth, so that the view
/// and the sample never disagree.
pub proof fn the_view_is_the_upper_half_of_the_sample(px: Pixels, p: int, c: int)
    requires
        0 <= p,
        0 <= c < 4,
        (p + 1) * px.stride() <= px.stored().len(),
    ensures
        px.narrow()[4 * p + c] == px.sample(p, c) / 256,
{
    if px.sample_depth() is U16 {
        assert((p + 1) * 8 == 8 * p + 8);
        let b = px.stored();
        assert(2 * (4 * p + c) == 8 * p + 2 * c);
    } else {
        assert((p + 1) * 4 == 4 * p + 4);
    }
}

} // verus!
