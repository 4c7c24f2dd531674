//! The session behind a panel: images held under handles, the selection, the
//! layer stack and the stroke in flight.
//!
//! Every door decides here what may happen, in which order it is refused, and
//! what changes. Device work runs between two doors: the first hands out what
//! is to be run, the second takes the result.
use crate::adjust::{AdjustParams, Stage};
use crate::bridge::{f16_to_rgba8, rgba8_to_f16};
use crate::coverage::{Frame, Region, SelectionCoverage};
use crate::display::{display_code, DisplayTreatment};
use crate::doors::{decode_filter, ResampleFilter};
use crate::errors::IngestError;
use crate::ingest::{canvas_bytes, crop_rgba8, DecodedImage};
use crate::layers::{EditRecord, Layer, LayerStack};
use crate::mip::MipPyramid;
use crate::pixels::Pixels;
use crate::scalar::Scalar;
use crate::selection::{BoundImage, SessionSelection};
use crate::strings::push_decimal;
use crate::stroke::StrokeSession;
use std::collections::HashMap;
use std::sync::Arc;
use vstd::prelude::*;

verus! {

broadcast use vstd::std_specs::hash::group_hash_axioms;

/// An image's identity on the surface.
#[derive(Debug, Clone, Copy, PartialEq, Eq, Structural)]
pub struct DecodedHandle {
    pub handle: u32,
    pub width: u32,
    pub height: u32,
    /// The display treatment's code.
    pub display: u8,
}

/// A layer stack and the image that it composites into.
#[derive(Debug)]
pub struct LayerDoc {
    pub handle: u32,
    pub stack: LayerStack,
}

/// One session.
pub struct Session {
    /// The images, by handle.
    pub images: HashMap<u32, DecodedImage>,
    /// The pyramids built so far, by the handle of their image.
    pub pyramids: HashMap<u32, MipPyramid>,
    /// The handle that the next image gets; the first is 1.
    pub next_handle: u32,
    pub selection: SessionSelection,
    pub layers: Option<LayerDoc>,
    pub stroke: Option<StrokeSession>,
}

/// Whether a pyramid is that of an image, with no level above a single pixel.
pub open spec fn coherent(p: MipPyramid, image: DecodedImage) -> bool {
    &&& p.wf()
    &&& p.depth() > 0
    &&& p.image() == image.bytes8()
    &&& p.columns(0) == image.width
    &&& p.rows(0) == image.height
    &&& forall|l: int|
        0 <= l < p.depth() - 1 ==> (#[trigger] p.columns(l)) > 1 || p.rows(l) > 1
}

/// Whether an image has a level of detail.
pub open spec fn has_level(image: DecodedImage, level: nat) -> bool {
    level == 0 || crate::mip::level_extent(image.width as int, (level - 1) as nat) > 1
        || crate::mip::level_extent(image.height as int, (level - 1) as nat) > 1
}

/// The square window of an image at a level of detail; empty where the image
/// has no such level.
pub open spec fn level_window(image: DecodedImage, level: nat, x: int, y: int, size: int) -> Seq<u8> {
    if has_level(image, level) {
        crate::ingest::window(
            crate::mip::level_pixels(
                image.bytes8(),
                image.width as int,
                image.height as int,
                level,
            ),
            crate::mip::level_extent(image.width as int, level),
            crate::mip::level_extent(image.height as int, level),
            x,
            y,
            size,
            size,
        ).0
    } else {
        Seq::empty()
    }
}

proof fn lemma_small_stays_small(n: int, l: nat, m: nat)
    requires
        0 <= n,
        l <= m,
        crate::mip::level_extent(n, l) <= 1,
    ensures
        crate::mip::level_extent(n, m) <= 1,
        0 <= crate::mip::level_extent(n, m),
    decreases m,
{
    if m > l {
        lemma_small_stays_small(n, l, (m - 1) as nat);
    } else {
        lemma_level_extent_nonneg(n, m);
    }
}

proof fn lemma_level_extent_nonneg(n: int, l: nat)
    requires
        0 <= n,
    ensures
        0 <= crate::mip::level_extent(n, l),
    decreases l,
{
    if l > 0 {
        lemma_level_extent_nonneg(n, (l - 1) as nat);
    }
}

/// The pixels of an image can be counted.
proof fn lemma_addressable(image: DecodedImage, held: usize)
    requires
        image.sized(),
        held == image.rgba.stored().len(),
    ensures
        image.width * image.height <= usize::MAX,
{
    let n = image.width * image.height;
    let stride = image.rgba.stride();
    assert(0 <= n) by (nonlinear_arith)
        requires
            n == image.width * image.height,
    ;
    assert(n <= n * stride) by (nonlinear_arith)
        requires
            0 <= n,
            1 <= stride,
    ;
}

/// The sentence for a handle that names no image.
pub open spec fn unknown_image(handle: u32) -> Seq<char> {
    "unknown image handle "@ + crate::strings::decimal(handle as nat)
}

/// The sentence for a missing stack.
pub open spec fn no_stack() -> Seq<char> {
    "no layer stack open (layers_open first)"@
}

pub(crate) fn unknown_image_text(handle: u32) -> (text: String)
    ensures
        text@ == unknown_image(handle),
{
    let mut text: String = "unknown image handle ".to_owned();
    push_decimal(&mut text, handle as u128);
    text
}

/// The sentence for raw pixels of another extent than stated.
pub open spec fn bad_pixels(len: nat, width: u32, height: u32) -> Seq<char> {
    "decode: "@ + crate::ingest::mis_sized(
        "ingest_rgba8: "@,
        len,
        " bytes for "@,
        width,
        "x"@,
        height,
        (width * height * 4) as nat,
    )
}

/// Where an edit landed.
#[derive(Debug)]
pub enum Landing {
    /// In a new image.
    Registered(DecodedHandle),
    /// In the active layer; the journal keeps the record, and the stack is to be
    /// composited.
    Edited(EditRecord),
    /// Nowhere: nothing changed.
    Untouched(DecodedHandle),
}

impl Session {
    /// What every door keeps: images of their own extent, below the next
    /// handle; pyramids of images that are held; and a selection, a stack and
    /// a stroke in order. The stack's image is held and has the stack's extent;
    /// so has the stroke's, while it is held.
    pub open spec fn wf(self) -> bool {
        &&& forall|h: u32| #[trigger]
            self.images@.contains_key(h) ==> h < self.next_handle && self.images@[h].sized()
        &&& forall|h: u32| #[trigger]
            self.pyramids@.contains_key(h) ==> self.images@.contains_key(h) && coherent(
                self.pyramids@[h],
                self.images@[h],
            )
        &&& self.selection.wf()
        &&& self.layers matches Some(d) ==> {
            &&& d.stack.wf()
            &&& self.images@.contains_key(d.handle)
            &&& d.stack.columns() == self.images@[d.handle].width
            &&& d.stack.rows() == self.images@[d.handle].height
        }
        &&& self.stroke matches Some(s) ==> {
            &&& s.wf()
            &&& s.document() < self.next_handle
            &&& self.images@.contains_key(s.document()) ==> s.columns()
                == self.images@[s.document()].width && s.rows()
                == self.images@[s.document()].height
        }
    }

    /// Whether the selection, the stack and the stroke are the same.
    pub open spec fn same_work(self, other: Session) -> bool {
        &&& self.selection == other.selection
        &&& self.layers == other.layers
        &&& self.stroke == other.stroke
    }

    /// Whether the images are the same.
    pub open spec fn same_images(self, other: Session) -> bool {
        self.images == other.images && self.pyramids == other.pyramids && self.next_handle
            == other.next_handle
    }

    pub fn new() -> (s: Session)
        ensures
            s.wf(),
            s.images@ == Map::<u32, DecodedImage>::empty(),
            s.next_handle == 1,
            s.selection.image() is None,
            s.layers is None,
            s.stroke is None,
    {
        Session {
            images: HashMap::new(),
            pyramids: HashMap::new(),
            next_handle: 1,
            selection: SessionSelection::new(),
            layers: None,
            stroke: None,
        }
    }

    /// Hold an image under a new handle.
    pub fn register(&mut self, image: DecodedImage) -> (id: DecodedHandle)
        requires
            old(self).wf(),
            old(self).next_handle < u32::MAX,
            image.sized(),
        ensures
            final(self).wf(),
            final(self).same_work(*old(self)),
            !old(self).images@.contains_key(id.handle),
            final(self).images@ == old(self).images@.insert(id.handle, image),
            final(self).pyramids == old(self).pyramids,
            final(self).next_handle == old(self).next_handle + 1,
            id == (DecodedHandle {
                handle: old(self).next_handle,
                width: image.width,
                height: image.height,
                display: image.display.code(),
            }),
    {
        let handle: u32 = self.next_handle;
        let id: DecodedHandle = DecodedHandle {
            handle,
            width: image.width,
            height: image.height,
            display: display_code(image.display),
        };
        proof {
            assert(!self.pyramids@.contains_key(handle));
        }
        self.next_handle = handle + 1;
        self.images.insert(handle, image);
        id
    }

    /// Whether registering raw pixels went as it should.
    pub open spec fn registers(
        self,
        width: u32,
        height: u32,
        bytes: Seq<u8>,
        after: Session,
        id: DecodedHandle,
    ) -> bool {
        &&& bytes.len() == width * height * 4
        &&& after.next_handle == self.next_handle + 1
        &&& id == (DecodedHandle { handle: self.next_handle, width, height, display: 1 })
        &&& after.images@ == self.images@.insert(id.handle, after.images@[id.handle])
        &&& after.pyramids == self.pyramids
        &&& after.images@[id.handle].width == width
        &&& after.images@[id.handle].height == height
        &&& after.images@[id.handle].rgba.stored() == bytes
        &&& after.images@[id.handle].rgba.sample_depth() is U8
        &&& after.images@[id.handle].display is AssumedSrgb
        &&& !after.images@[id.handle].depth_reduced
    }

    /// Hold straight RGBA8 pixels under a new handle. Raw pixels carry no
    /// profile.
    pub fn ingest_rgba8(&mut self, width: u32, height: u32, bytes: Vec<u8>) -> (id: Result<
        DecodedHandle,
        String,
    >)
        requires
            old(self).wf(),
            old(self).next_handle < u32::MAX,
        ensures
            final(self).wf(),
            final(self).same_work(*old(self)),
            match id {
                Ok(d) => old(self).registers(width, height, bytes@, *final(self), d),
                Err(e) => {
                    &&& bytes@.len() != width * height * 4
                    &&& final(self).same_images(*old(self))
                    &&& e@ == bad_pixels(bytes@.len(), width, height)
                },
            },
    {
        match DecodedImage::from_rgba8(width, height, bytes) {
            Ok(image) => {
                let ghost kept = image;
                let id: DecodedHandle = self.register(image);
                proof {
                    assert(self.images@[id.handle] == kept);
                }
                Ok(id)
            },
            Err(e) => Err(e.to_text()),
        }
    }

    /// The image under a handle.
    pub fn image(&self, handle: u32) -> (image: Result<DecodedImage, String>)
        ensures
            match image {
                Ok(i) => self.images@.contains_key(handle) && self.images@[handle] == i,
                Err(e) => !self.images@.contains_key(handle) && e@ == unknown_image(handle),
            },
    {
        match self.images.get(&handle) {
            Some(i) => Ok(i.clone()),
            None => Err(unknown_image_text(handle)),
        }
    }

    /// The display treatment of an image, as its code. An unknown handle reads
    /// as assumed: to claim a managed image would be the dishonest answer.
    pub fn read_display(&self, handle: u32) -> (code: u8)
        ensures
            code == (if self.images@.contains_key(handle) {
                self.images@[handle].display.code()
            } else {
                1
            }),
    {
        match self.images.get(&handle) {
            Some(i) => display_code(i.display),
            None => 1,
        }
    }

    /// Replace an image's pixels in place, at the same extent, and drop its
    /// pyramid, which they invalidate.
    pub fn set_image_pixels(&mut self, handle: u32, rgba: Pixels) -> (done: Result<(), String>)
        requires
            old(self).wf(),
        ensures
            final(self).wf(),
            final(self).same_work(*old(self)),
            final(self).next_handle == old(self).next_handle,
            match done {
                Ok(()) => {
                    &&& old(self).images@.contains_key(handle)
                    &&& rgba.covers(
                        old(self).images@[handle].width,
                        old(self).images@[handle].height,
                    )
                    &&& final(self).images@ == old(self).images@.insert(
                        handle,
                        (DecodedImage { rgba, ..old(self).images@[handle] }),
                    )
                    &&& final(self).pyramids@ == old(self).pyramids@.remove(handle)
                },
                Err(e) => {
                    &&& final(self).same_images(*old(self))
                    &&& if old(self).images@.contains_key(handle) {
                        &&& !rgba.covers(
                            old(self).images@[handle].width,
                            old(self).images@[handle].height,
                        )
                        &&& e@ == "internal: composite extent does not match the bound image"@
                    } else {
                        e@ == unknown_image(handle)
                    }
                },
            },
    {
        let held: DecodedImage = match self.image(handle) {
            Ok(i) => i,
            Err(e) => {
                return Err(e);
            },
        };
        let want: u128 = canvas_bytes(held.width, held.height, rgba.bytes_per_pixel());
        if rgba.len() as u128 != want {
            return Err("internal: composite extent does not match the bound image".to_owned());
        }
        self.pyramids.remove(&handle);
        self.images.insert(handle, DecodedImage {
            width: held.width,
            height: held.height,
            rgba,
            display: held.display,
            depth_reduced: held.depth_reduced,
        });
        Ok(())
    }

    /// Let go of an image, of its pyramid, and of the stack bound to it: a stack
    /// whose image is gone has nowhere to land.
    pub fn free_image(&mut self, handle: u32)
        requires
            old(self).wf(),
        ensures
            final(self).wf(),
            final(self).images@ == old(self).images@.remove(handle),
            final(self).pyramids@ == old(self).pyramids@.remove(handle),
            final(self).next_handle == old(self).next_handle,
            final(self).selection == old(self).selection,
            final(self).stroke == old(self).stroke,
            final(self).layers == (match old(self).layers {
                Some(d) => if d.handle == handle {
                    None
                } else {
                    Some(d)
                },
                None => None,
            }),
    {
        self.images.remove(&handle);
        self.pyramids.remove(&handle);
        let drop_it: bool = match &self.layers {
            Some(d) => d.handle == handle,
            None => false,
        };
        if drop_it {
            self.layers = None;
        }
    }

    /// Commit a crop: the rectangle, clamped to the image, becomes a new image;
    /// the source stays.
    pub fn crop_image(&mut self, handle: u32, x: u32, y: u32, w: u32, h: u32) -> (id: Result<
        DecodedHandle,
        String,
    >)
        requires
            old(self).wf(),
            old(self).next_handle < u32::MAX,
        ensures
            final(self).wf(),
            final(self).same_work(*old(self)),
            id is Err ==> final(self).same_images(*old(self)),
            !old(self).images@.contains_key(handle) ==> (id matches Err(e) && e@ == unknown_image(
                handle,
            )),
            old(self).images@.contains_key(handle) ==> {
                let image = old(self).images@[handle];
                let (_, cw, ch) = crate::ingest::window(
                    image.bytes8(),
                    image.width as int,
                    image.height as int,
                    x as int,
                    y as int,
                    w as int,
                    h as int,
                );
                &&& id is Ok <==> cw > 0 && ch > 0
                &&& id matches Err(e) ==> e@ == "decode: "@ + crate::ingest::empty_crop(
                    x,
                    y,
                    w,
                    h,
                    image.width,
                    image.height,
                )
                &&& id matches Ok(d) ==> {
                    let cut = final(self).images@[d.handle];
                    &&& d.handle == old(self).next_handle
                    &&& d.width == cw
                    &&& d.height == ch
                    &&& d.display == image.display.code()
                    &&& final(self).next_handle == old(self).next_handle + 1
                    &&& final(self).images@ == old(self).images@.insert(d.handle, cut)
                    &&& final(self).pyramids == old(self).pyramids
                    &&& crate::ingest::crops(image, x, y, w, h, cut)
                }
            },
    {
        let image: DecodedImage = match self.image(handle) {
            Ok(i) => i,
            Err(e) => {
                return Err(e);
            },
        };
        match crop_rgba8(&image, x, y, w, h) {
            Ok(cut) => {
                let ghost kept = cut;
                let id: DecodedHandle = self.register(cut);
                proof {
                    assert(self.images@[id.handle] == kept);
                }
                Ok(id)
            },
            Err(e) => Err(e.to_text()),
        }
    }

    /// A window of an image as packed RGBA8, clipped to it.
    pub fn image_tile_rgba8(&self, handle: u32, x: u32, y: u32, w: u32, h: u32) -> (tile: Result<
        Vec<u8>,
        String,
    >)
        requires
            self.wf(),
        ensures
            match tile {
                Ok(t) => {
                    &&& self.images@.contains_key(handle)
                    &&& t@ == crate::ingest::window(
                        self.images@[handle].bytes8(),
                        self.images@[handle].width as int,
                        self.images@[handle].height as int,
                        x as int,
                        y as int,
                        w as int,
                        h as int,
                    ).0
                },
                Err(e) => !self.images@.contains_key(handle) && e@ == unknown_image(handle),
            },
    {
        match self.images.get(&handle) {
            Some(i) => {
                let (bytes, _, _): (Vec<u8>, u32, u32) = i.tile_window_rgba8(x, y, w, h);
                Ok(bytes)
            },
            None => Err(unknown_image_text(handle)),
        }
    }

    /// A square window of an image at a level of detail, in that level's
    /// pixels. The pyramid is built on first use and kept while the image's
    /// pixels stand.
    #[verifier::rlimit(40)]
    pub fn image_tile_rgba8_level(&mut self, handle: u32, level: u32, x: u32, y: u32, size: u32) -> (
    tile: Result<Vec<u8>, String>)
        requires
            old(self).wf(),
            0 < level <= 255 && old(self).images@.contains_key(handle) ==> {
                let i = old(self).images@[handle];
                (i.width > 0 && i.height > 0) || (i.width <= 1 && i.height <= 1)
            },
        ensures
            final(self).wf(),
            final(self).same_work(*old(self)),
            final(self).images == old(self).images,
            final(self).next_handle == old(self).next_handle,
            tile is Ok <==> level <= 255 && old(self).images@.contains_key(handle),
            tile matches Ok(t) ==> t@ == level_window(
                old(self).images@[handle],
                level as nat,
                x as int,
                y as int,
                size as int,
            ),
            tile matches Err(e) ==> e@ == (if level > 255 {
                "mip level "@ + crate::strings::decimal(level as nat) + " out of range (max 255)"@
            } else {
                unknown_image(handle)
            }),
    {
        if level == 0 {
            proof {
                reveal_with_fuel(crate::mip::level_pixels, 2);
                reveal_with_fuel(crate::mip::level_extent, 2);
            }
            return self.image_tile_rgba8(handle, x, y, size, size);
        }
        if level > 255 {
            let mut text: String = "mip level ".to_owned();
            push_decimal(&mut text, level as u128);
            text.append(" out of range (max 255)");
            return Err(text);
        }
        let l: u8 = level as u8;
        if let Some(p) = self.pyramids.get(&handle) {
            if p.max_level() >= l {
                let (bytes, _, _): (Vec<u8>, u32, u32) = p.window_rgba8(l, x, y, size, size);
                proof {
                    let image = self.images@[handle];
                    p.lemma_extents(l as int);
                    p.lemma_extents(l - 1);
                    assert(p.columns(l - 1) > 1 || p.rows(l - 1) > 1);
                }
                return Ok(bytes);
            }
        }
        let image: DecodedImage = match self.image(handle) {
            Ok(i) => i,
            Err(e) => {
                return Err(e);
            },
        };
        proof {
            crate::ingest::narrow_is_sized(image.rgba, image.width, image.height);
        }
        let view = image.rgba.to_rgba8();
        let built: MipPyramid = MipPyramid::build(image.width, image.height, view.as_slice(), l);
        let (bytes, _, _): (Vec<u8>, u32, u32) = built.window_rgba8(l, x, y, size, size);
        proof {
            let last = built.depth() - 1;
            built.lemma_extents(last);
            if l < built.depth() {
                built.lemma_extents(l as int);
                built.lemma_extents(l - 1);
                assert(built.columns(l - 1) > 1 || built.rows(l - 1) > 1);
            } else {
                lemma_small_stays_small(image.width as int, last as nat, (l - 1) as nat);
                lemma_small_stays_small(image.height as int, last as nat, (l - 1) as nat);
            }
        }
        self.pyramids.insert(handle, built);
        Ok(bytes)
    }
}

/// The coverage of the selection, boxed in; the whole canvas where there is no
/// selection or where it covers nothing.
pub open spec fn fill_damage(selection: SessionSelection, w: u32, h: u32, damage: Region) -> bool {
    match selection.field() {
        Some(c) if exists|x: int, y: int| #[trigger] c.touches(x, y) => {
            &&& 0 <= damage.x
            &&& 0 <= damage.y
            &&& c.bounded_by(
                Frame { x: damage.x as u32, y: damage.y as u32, w: damage.w, h: damage.h },
            )
        },
        _ => damage == (Region { x: 0, y: 0, w, h }),
    }
}

/// What a fill paints over, and through.
#[derive(Debug)]
pub struct FillPrelude {
    pub image: DecodedImage,
    pub mask: Option<Arc<SelectionCoverage>>,
    /// Whether the image is the active layer.
    pub layered: bool,
}

/// What a resize runs.
#[derive(Debug)]
pub struct ResizePlan {
    pub filter: ResampleFilter,
    pub width: u32,
    pub height: u32,
    /// The image as a working window.
    pub window: Vec<u8>,
}

/// What an adjustment runs.
#[derive(Debug)]
pub enum AdjustRun {
    /// Nothing changes: the image's own pixels.
    Verbatim(Vec<u8>),
    /// The device runs these stages over the image, through the mask.
    Stages { image: DecodedImage, stages: Vec<Stage>, mask: Option<Arc<SelectionCoverage>> },
}

/// The selection as a panel reads it.
#[derive(Debug, Clone, Copy, PartialEq, Eq, Structural)]
pub struct SelectionStats {
    /// Whether there is an explicit selection.
    pub has: bool,
    /// Its bounding box; none where it covers nothing.
    pub frame: Option<Frame>,
    pub revision: u64,
}

impl Session {
    // ── selection ──

    /// Bind the selection to an image.
    pub fn selection_bind(&mut self, handle: u32) -> (done: Result<(), String>)
        requires
            old(self).wf(),
            old(self).selection.count() < u64::MAX,
        ensures
            final(self).wf(),
            final(self).same_images(*old(self)),
            final(self).layers == old(self).layers,
            final(self).stroke == old(self).stroke,
            match done {
                Ok(()) => {
                    let i = old(self).images@[handle];
                    let next = BoundImage { handle, width: i.width, height: i.height };
                    &&& old(self).images@.contains_key(handle)
                    &&& final(self).selection.image() == Some(next)
                    &&& final(self).selection.field() == (if old(self).selection.image() == Some(
                        next,
                    ) {
                        old(self).selection.field()
                    } else {
                        None
                    })
                    &&& final(self).selection.count() == old(self).selection.count() + (if old(
                        self,
                    ).selection.image() != Some(next) && old(self).selection.field() is Some {
                        1int
                    } else {
                        0int
                    })
                },
                Err(e) => {
                    &&& !old(self).images@.contains_key(handle)
                    &&& e@ == unknown_image(handle)
                    &&& final(self).selection == old(self).selection
                },
            },
    {
        match self.image(handle) {
            Ok(i) => {
                let held: usize = i.rgba.len();
                proof {
                    lemma_addressable(i, held);
                }
                self.selection.bind(handle, i.width, i.height);
                Ok(())
            },
            Err(e) => Err(e),
        }
    }

    /// Point the selection at an image of the same extent, and keep it.
    pub fn selection_transfer(&mut self, handle: u32) -> (kept: Result<bool, String>)
        requires
            old(self).wf(),
            old(self).selection.count() < u64::MAX,
        ensures
            final(self).wf(),
            final(self).same_images(*old(self)),
            final(self).layers == old(self).layers,
            final(self).stroke == old(self).stroke,
            match kept {
                Ok(k) => {
                    let i = old(self).images@[handle];
                    &&& old(self).images@.contains_key(handle)
                    &&& k <==> (old(self).selection.image() matches Some(b) && b.width == i.width
                        && b.height == i.height)
                    &&& final(self).selection.image() == Some(
                        BoundImage { handle, width: i.width, height: i.height },
                    )
                    &&& final(self).selection.field() == (if k {
                        old(self).selection.field()
                    } else {
                        None
                    })
                    &&& final(self).selection.count() == old(self).selection.count() + (if !k
                        && old(self).selection.field() is Some {
                        1int
                    } else {
                        0int
                    })
                },
                Err(e) => {
                    &&& !old(self).images@.contains_key(handle)
                    &&& e@ == unknown_image(handle)
                    &&& final(self).selection == old(self).selection
                },
            },
    {
        match self.image(handle) {
            Ok(i) => {
                let held: usize = i.rgba.len();
                proof {
                    lemma_addressable(i, held);
                }
                Ok(self.selection.transfer(handle, i.width, i.height))
            },
            Err(e) => Err(e),
        }
    }

    /// What is wrong with a wand's seed, if anything, in the order it is tested.
    pub open spec fn wand_refusal(self, x: u32, y: u32) -> Option<Seq<char>> {
        match self.selection.image() {
            None => Some(crate::selection::unbound()),
            Some(b) => if !self.images@.contains_key(b.handle) {
                Some(
                    "bound image handle "@ + crate::strings::decimal(b.handle as nat)
                        + " is gone"@,
                )
            } else if x >= self.images@[b.handle].width || y >= self.images@[b.handle].height {
                Some(
                    "wand seed ("@ + crate::strings::decimal(x as nat) + ","@
                        + crate::strings::decimal(y as nat) + ") outside "@
                        + crate::strings::decimal(self.images@[b.handle].width as nat) + "x"@
                        + crate::strings::decimal(self.images@[b.handle].height as nat),
                )
            } else {
                None
            },
        }
    }

    /// The image that a wand floods, where its seed lies on it.
    pub fn wand_image(&self, x: u32, y: u32) -> (image: Result<DecodedImage, String>)
        ensures
            match image {
                Ok(i) => {
                    &&& self.wand_refusal(x, y) is None
                    &&& self.selection.image() matches Some(b) && i == self.images@[b.handle]
                },
                Err(e) => self.wand_refusal(x, y) == Some(e@),
            },
    {
        let bound: BoundImage = match self.selection.bound() {
            Some(b) => b,
            None => {
                return Err("no image bound (selection_bind first)".to_owned());
            },
        };
        let image: DecodedImage = match self.images.get(&bound.handle) {
            Some(i) => i.clone(),
            None => {
                let mut text: String = "bound image handle ".to_owned();
                push_decimal(&mut text, bound.handle as u128);
                text.append(" is gone");
                return Err(text);
            },
        };
        if x >= image.width || y >= image.height {
            let mut text: String = "wand seed (".to_owned();
            push_decimal(&mut text, x as u128);
            text.append(",");
            push_decimal(&mut text, y as u128);
            text.append(") outside ");
            push_decimal(&mut text, image.width as u128);
            text.append("x");
            push_decimal(&mut text, image.height as u128);
            return Err(text);
        }
        Ok(image)
    }

    /// The bounding box of the selection.
    pub fn selection_bounds(&self) -> (frame: Option<Frame>)
        ensures
            match frame {
                Some(f) => self.selection.field() matches Some(c) && c.bounded_by(f),
                None => self.selection.field() matches Some(c) ==> forall|x: int, y: int|
                    !(#[trigger] c.touches(x, y)),
            },
    {
        match self.selection.coverage() {
            Some(c) => c.bounds(),
            None => None,
        }
    }

    /// The selection as a panel reads it.
    pub fn selection_stats(&self) -> (stats: SelectionStats)
        ensures
            stats.has <==> self.selection.field() is Some,
            stats.revision == self.selection.count(),
            match stats.frame {
                Some(f) => self.selection.field() matches Some(c) && c.bounded_by(f),
                None => self.selection.field() matches Some(c) ==> forall|x: int, y: int|
                    !(#[trigger] c.touches(x, y)),
            },
    {
        SelectionStats {
            has: self.selection.coverage().is_some(),
            frame: self.selection_bounds(),
            revision: self.selection.revision(),
        }
    }

    /// The bytes of the selection; none without one.
    pub fn selection_coverage_bytes(&self) -> (bytes: Vec<u8>)
        ensures
            bytes@ == (match self.selection.field() {
                Some(c) => c.cells(),
                None => Seq::empty(),
            }),
    {
        let mut bytes: Vec<u8> = Vec::new();
        if let Some(c) = self.selection.coverage() {
            bytes.extend_from_slice(c.data());
        }
        proof {
            assert(bytes@ =~= (match self.selection.field() {
                Some(c) => c.cells(),
                None => Seq::empty(),
            }));
        }
        bytes
    }

    // ── adjustments and resizing ──

    /// Whether an adjustment of an image runs like this.
    pub open spec fn runs_adjust<F: Fn(Scalar) -> u32>(
        self,
        handle: u32,
        params: AdjustParams,
        device: bool,
        radius: F,
        run: Result<AdjustRun, String>,
    ) -> bool {
        match run {
            Ok(AdjustRun::Verbatim(bytes)) => {
                &&& self.images@.contains_key(handle)
                &&& params.unchanged()
                &&& bytes@ == self.images@[handle].bytes8()
            },
            Ok(AdjustRun::Stages { image, stages, mask }) => {
                &&& self.images@.contains_key(handle)
                &&& !params.unchanged()
                &&& device
                &&& image == self.images@[handle]
                &&& params.plans(radius, stages@)
                &&& self.selection.masks(handle, mask)
                &&& mask is Some <==> (self.selection.image() matches Some(b) && b.handle
                    == handle) && (self.selection.field() matches Some(c) && !c.all_one())
                &&& mask matches Some(m) ==> self.selection.field() == Some(*m)
            },
            Err(e) => if !self.images@.contains_key(handle) {
                e@ == unknown_image(handle)
            } else {
                &&& !params.unchanged()
                &&& !device
                &&& e@
                    == "GPU not initialized — await init_gpu() first (kernels are GPU-only; no CPU fallback ships)"@
            },
        }
    }

    /// What an adjustment of an image runs. A chain at identity is the image
    /// itself; anything else needs a device, and runs through the selection
    /// bound to the image.
    pub fn adjust_run<F: Fn(Scalar) -> u32>(
        &self,
        handle: u32,
        params: &AdjustParams,
        device: bool,
        radius: &F,
    ) -> (run: Result<AdjustRun, String>)
        requires
            radius.requires((params.blur_sigma,)),
        ensures
            self.runs_adjust(handle, *params, device, *radius, run),
    {
        let image: DecodedImage = match self.image(handle) {
            Ok(i) => i,
            Err(e) => {
                return Err(e);
            },
        };
        if params.is_identity() {
            let view = image.rgba.to_rgba8();
            let mut bytes: Vec<u8> = Vec::new();
            bytes.extend_from_slice(view.as_slice());
            proof {
                assert(bytes@ =~= image.bytes8());
            }
            return Ok(AdjustRun::Verbatim(bytes));
        }
        if !device {
            return Err(
                "GPU not initialized — await init_gpu() first (kernels are GPU-only; no CPU fallback ships)".to_owned(),
            );
        }
        Ok(
            AdjustRun::Stages {
                image,
                stages: params.plan(radius),
                mask: self.selection.mask_for(handle),
            },
        )
    }

    /// What is wrong with a resize, if anything, in the order it is tested.
    pub open spec fn resize_refusal(
        self,
        handle: u32,
        out_w: u32,
        out_h: u32,
        filter: Seq<char>,
        device: bool,
    ) -> Option<Seq<char>> {
        if out_w == 0 || out_h == 0 {
            Some("resize: target size must be non-zero"@)
        } else if !device {
            Some("resize is GPU-only — call init_gpu first"@)
        } else if !self.images@.contains_key(handle) {
            Some(unknown_image(handle))
        } else if crate::doors::filter_named(filter) is None {
            Some(
                crate::doors::quoted(
                    "unknown resample filter "@,
                    filter,
                    " (nearest | mitchell | lanczos3)"@,
                ),
            )
        } else {
            None
        }
    }

    /// What a resize runs.
    pub fn resize_plan(
        &self,
        handle: u32,
        out_w: u32,
        out_h: u32,
        filter: &str,
        device: bool,
    ) -> (plan: Result<ResizePlan, String>)
        ensures
            match plan {
                Ok(p) => {
                    &&& self.resize_refusal(handle, out_w, out_h, filter@, device) is None
                    &&& crate::doors::filter_named(filter@) == Some(p.filter)
                    &&& p.width == self.images@[handle].width
                    &&& p.height == self.images@[handle].height
                    &&& p.window@ == crate::bridge::widened(self.images@[handle].bytes8())
                },
                Err(e) => self.resize_refusal(handle, out_w, out_h, filter@, device) == Some(e@),
            },
    {
        if out_w == 0 || out_h == 0 {
            return Err("resize: target size must be non-zero".to_owned());
        }
        if !device {
            return Err("resize is GPU-only — call init_gpu first".to_owned());
        }
        let image: DecodedImage = match self.image(handle) {
            Ok(i) => i,
            Err(e) => {
                return Err(e);
            },
        };
        let by: ResampleFilter = match decode_filter(filter) {
            Ok(f) => f,
            Err(e) => {
                return Err(e);
            },
        };
        let view = image.rgba.to_rgba8();
        Ok(
            ResizePlan {
                filter: by,
                width: image.width,
                height: image.height,
                window: rgba8_to_f16(view.as_slice()),
            },
        )
    }

    /// The display treatment of an image; an unknown handle reads as assumed.
    pub open spec fn treatment(self, handle: u32) -> DisplayTreatment {
        if self.images@.contains_key(handle) {
            self.images@[handle].display
        } else {
            DisplayTreatment::AssumedSrgb
        }
    }

    /// Take a resampled window and hold it as a new image, which inherits the
    /// display treatment of its source.
    pub fn finish_resize(&mut self, handle: u32, out_w: u32, out_h: u32, window: &[u8]) -> (id: Result<
        DecodedHandle,
        String,
    >)
        requires
            old(self).wf(),
            old(self).next_handle < u32::MAX,
        ensures
            final(self).wf(),
            final(self).same_work(*old(self)),
            ({
                let bytes = crate::bridge::narrowed(window@);
                match id {
                    Ok(d) => {
                        let image = final(self).images@[d.handle];
                        &&& bytes.len() == out_w * out_h * 4
                        &&& d == (DecodedHandle {
                            handle: old(self).next_handle,
                            width: out_w,
                            height: out_h,
                            display: old(self).treatment(handle).code(),
                        })
                        &&& final(self).next_handle == old(self).next_handle + 1
                        &&& final(self).images@ == old(self).images@.insert(d.handle, image)
                        &&& final(self).pyramids == old(self).pyramids
                        &&& image.width == out_w
                        &&& image.height == out_h
                        &&& image.rgba.stored() == bytes
                        &&& image.rgba.sample_depth() is U8
                        &&& image.display == old(self).treatment(handle)
                        &&& !image.depth_reduced
                    },
                    Err(e) => {
                        &&& bytes.len() != out_w * out_h * 4
                        &&& e@ == bad_pixels(bytes.len(), out_w, out_h)
                        &&& final(self).same_images(*old(self))
                    },
                }
            }),
    {
        let display: DisplayTreatment = match self.images.get(&handle) {
            Some(i) => i.display,
            None => DisplayTreatment::AssumedSrgb,
        };
        match DecodedImage::from_rgba8(out_w, out_h, f16_to_rgba8(window)) {
            Ok(mut image) => {
                image.display = display;
                let ghost kept = image;
                let id: DecodedHandle = self.register(image);
                proof {
                    assert(self.images@[id.handle] == kept);
                }
                Ok(id)
            },
            Err(e) => Err(e.to_text()),
        }
    }

    // ── fills ──

    /// The sentence for a fill without a device.
    pub open spec fn fill_needs_device() -> Seq<char> {
        "fill is GPU-only — call init_gpu first (the generator and the composite are both WGSL kernels; no CPU fallback ships)"@
    }

    /// Whether the stack is bound to an image.
    pub open spec fn stacked(self, handle: u32) -> bool {
        self.layers matches Some(d) && d.handle == handle
    }

    /// The active layer.
    pub open spec fn active_layer(self) -> Layer {
        self.layers.unwrap().stack.list()[self.layers.unwrap().stack.current()]
    }

    pub(crate) fn is_stacked(&self, handle: u32) -> (yes: bool)
        ensures
            yes == self.stacked(handle),
    {
        match &self.layers {
            Some(d) => d.handle == handle,
            None => false,
        }
    }

    /// Whether a fill of an image begins like this.
    pub open spec fn preludes(
        self,
        handle: u32,
        device: bool,
        prelude: Result<FillPrelude, String>,
    ) -> bool {
        match prelude {
            Ok(p) => {
                &&& self.images@.contains_key(handle)
                &&& device
                &&& p.layered == self.stacked(handle)
                &&& self.selection.masks(handle, p.mask)
                &&& p.mask is Some <==> (self.selection.image() matches Some(b) && b.handle
                    == handle) && (self.selection.field() matches Some(c) && !c.all_one())
                &&& p.mask matches Some(m) ==> self.selection.field() == Some(*m)
                &&& !p.layered ==> p.image == self.images@[handle]
                &&& p.layered ==> {
                    &&& !self.active_layer().locked
                    &&& p.image.width == self.layers.unwrap().stack.columns()
                    &&& p.image.height == self.layers.unwrap().stack.rows()
                    &&& p.image.rgba == self.active_layer().rgba
                    &&& p.image.display is AssumedSrgb
                    &&& !p.image.depth_reduced
                }
            },
            Err(e) => if !self.images@.contains_key(handle) {
                e@ == unknown_image(handle)
            } else if !device {
                e@ == Session::fill_needs_device()
            } else {
                &&& self.stacked(handle)
                &&& self.active_layer().locked
                &&& e@ == "unsupported: "@ + LayerStack::locked_sentence(
                    self.active_layer().name@,
                ) + " — unlock it to paint on it"@
            },
        }
    }

    /// What a fill paints over: the active layer where a stack is bound to the
    /// image, else the image.
    pub fn fill_prelude(&self, handle: u32, device: bool) -> (prelude: Result<FillPrelude, String>)
        requires
            self.wf(),
        ensures
            self.preludes(handle, device, prelude),
    {
        let image: DecodedImage = match self.image(handle) {
            Ok(i) => i,
            Err(e) => {
                return Err(e);
            },
        };
        if !device {
            return Err(
                "fill is GPU-only — call init_gpu first (the generator and the composite are both WGSL kernels; no CPU fallback ships)".to_owned(),
            );
        }
        let mask: Option<Arc<SelectionCoverage>> = self.selection.mask_for(handle);
        if let Some(d) = &self.layers {
            if d.handle == handle {
                if let Err(e) = d.stack.active_is_editable() {
                    let text: String = e.to_text();
                    proof {
                        assert(text@ =~= "unsupported: "@ + LayerStack::locked_sentence(
                            self.active_layer().name@,
                        ) + " — unlock it to paint on it"@);
                    }
                    return Err(text);
                }
                let layer: DecodedImage = DecodedImage {
                    width: d.stack.width(),
                    height: d.stack.height(),
                    rgba: d.stack.active().rgba.clone(),
                    display: DisplayTreatment::AssumedSrgb,
                    depth_reduced: false,
                };
                return Ok(FillPrelude { image: layer, mask, layered: true });
            }
        }
        Ok(FillPrelude { image, mask, layered: false })
    }

    /// The layers and the record of an edit of the active layer.
    pub open spec fn edits(
        self,
        after: Session,
        label: Seq<char>,
        damage: Region,
        pixels: Seq<u8>,
        record: EditRecord,
    ) -> bool {
        &&& self.layers matches Some(d)
        &&& after.layers matches Some(e)
        &&& e.handle == d.handle
        &&& e.stack.same_frame(d.stack)
        &&& e.stack.current() == d.stack.current()
        &&& e.stack.list() == d.stack.list().update(
            d.stack.current(),
            Layer { rgba: after.active_layer().rgba, ..self.active_layer() },
        )
        &&& after.active_layer().rgba.stored() == pixels
        &&& after.active_layer().rgba.sample_depth() is U8
        &&& record.label@ == label
        &&& record.scope == self.active_layer().id
        &&& record.before == self.active_layer().rgba
        &&& d.stack.on_canvas(damage, record.region)
    }

    /// What is wrong with writing 8-bit pixels into the active layer, if
    /// anything, in the order it is tested.
    pub open spec fn edit_refusal(self, len: nat) -> Option<Seq<char>> {
        match self.layers {
            None => Some(no_stack()),
            Some(d) => if len != d.stack.canvas() {
                Some(
                    "decode: "@ + crate::ingest::mis_sized(
                        "layer edit: "@,
                        len,
                        " bytes for "@,
                        d.stack.columns(),
                        "×"@,
                        d.stack.rows(),
                        d.stack.canvas() as nat,
                    ),
                )
            } else if !(self.active_layer().rgba.sample_depth() is U8) {
                Some(
                    "unsupported: "@
                        + "layer edit: the pixels and the layer differ in depth (depths must match)"@,
                )
            } else if self.active_layer().locked {
                Some("unsupported: "@ + LayerStack::locked_sentence(self.active_layer().name@))
            } else {
                None
            },
        }
    }

    /// Whether the stack is the same, layer by layer.
    pub open spec fn same_stack(self, other: Session) -> bool {
        match (self.layers, other.layers) {
            (None, None) => true,
            (Some(a), Some(b)) => {
                &&& a.handle == b.handle
                &&& a.stack.same_frame(b.stack)
                &&& a.stack.list() == b.stack.list()
                &&& a.stack.current() == b.stack.current()
            },
            _ => false,
        }
    }

    /// Write 8-bit pixels into the active layer.
    pub(crate) fn edit_layer(&mut self, label: &str, damage: Region, pixels: Vec<u8>) -> (edit: Result<
        EditRecord,
        String,
    >)
        requires
            old(self).wf(),
        ensures
            final(self).wf(),
            final(self).same_images(*old(self)),
            final(self).selection == old(self).selection,
            final(self).stroke == old(self).stroke,
            match edit {
                Ok(r) => {
                    &&& old(self).edit_refusal(pixels@.len()) is None
                    &&& old(self).edits(*final(self), label@, damage, pixels@, r)
                },
                Err(e) => {
                    &&& old(self).edit_refusal(pixels@.len()) == Some(e@)
                    &&& final(self).same_stack(*old(self))
                },
            },
    {
        let mut taken: Option<LayerDoc> = None;
        std::mem::swap(&mut taken, &mut self.layers);
        let mut doc: LayerDoc = match taken {
            Some(d) => d,
            None => {
                return Err("no layer stack open (layers_open first)".to_owned());
            },
        };
        let ghost before = doc.stack;
        let px: Pixels = Pixels::from_vec(pixels);
        let ghost kept = px;
        let edit: Result<EditRecord, IngestError> = doc.stack.edit_active(label, damage, px);
        proof {
            assert(before.canvas() == before.columns() * before.rows() * 4);
            assert(kept.stride() == 4);
            if edit is Ok {
                assert(doc.stack.list()[before.current()].rgba == kept);
            }
        }
        self.layers = Some(doc);
        match edit {
            Ok(r) => Ok(r),
            Err(e) => Err(e.to_text()),
        }
    }

    /// Whether a fill landed like this.
    pub open spec fn lands(
        self,
        width: u32,
        height: u32,
        pixels: Seq<u8>,
        layered: bool,
        landing: Result<Landing, String>,
        after: Session,
    ) -> bool {
        &&& (landing is Ok <==> if layered {
            self.edit_refusal(pixels.len()) is None
        } else {
            pixels.len() == width * height * 4
        })
        &&& (landing matches Ok(l) ==> if layered {
            &&& l matches Landing::Edited(r)
            &&& after.same_images(self)
            &&& exists|damage: Region| #[trigger]
                fill_damage(self.selection, width, height, damage) && self.edits(
                    after,
                    "Fill"@,
                    damage,
                    pixels,
                    r,
                )
        } else {
            &&& l matches Landing::Registered(d)
            &&& self.registers(width, height, pixels, after, d)
            &&& after.layers == self.layers
        })
        &&& (landing matches Err(e) ==> {
            &&& after.same_images(self)
            &&& after.same_stack(self)
            &&& if layered {
                self.edit_refusal(pixels.len()) == Some(e@)
            } else {
                e@ == bad_pixels(pixels.len(), width, height)
            }
        })
    }

    /// Land a fill: in the active layer where it was painted over that one, else
    /// in a new image. The damage is the selection's box, beyond which a fill
    /// cannot reach.
    pub fn land_fill(&mut self, width: u32, height: u32, pixels: Vec<u8>, layered: bool) -> (landing:
        Result<Landing, String>)
        requires
            old(self).wf(),
            old(self).next_handle < u32::MAX,
            old(self).selection.field() matches Some(c) ==> c.columns() <= i32::MAX && c.rows()
                <= i32::MAX,
        ensures
            final(self).wf(),
            final(self).selection == old(self).selection,
            final(self).stroke == old(self).stroke,
            old(self).lands(width, height, pixels@, layered, landing, *final(self)),
    {
        if !layered {
            return match self.ingest_rgba8(width, height, pixels) {
                Ok(d) => Ok(Landing::Registered(d)),
                Err(e) => Err(e),
            };
        }
        let damage: Region = match self.selection_bounds() {
            Some(f) => Region { x: f.x as i32, y: f.y as i32, w: f.w, h: f.h },
            None => Region { x: 0, y: 0, w: width, h: height },
        };
        proof {
            assert(fill_damage(self.selection, width, height, damage));
        }
        match self.edit_layer("Fill", damage, pixels) {
            Ok(r) => Ok(Landing::Edited(r)),
            Err(e) => Err(e),
        }
    }

    /// Write a composite of the stack back into its image.
    pub fn finish_composite(&mut self, pixels: Pixels) -> (id: Result<DecodedHandle, String>)
        requires
            old(self).wf(),
        ensures
            final(self).wf(),
            final(self).same_work(*old(self)),
            final(self).next_handle == old(self).next_handle,
            match id {
                Ok(d) => {
                    &&& old(self).layers matches Some(doc)
                    &&& pixels.covers(doc.stack.columns(), doc.stack.rows())
                    &&& d.handle == doc.handle
                    &&& d.width == doc.stack.columns()
                    &&& d.height == doc.stack.rows()
                    &&& d.display == old(self).images@[d.handle].display.code()
                    &&& final(self).images@ == old(self).images@.insert(
                        d.handle,
                        (DecodedImage { rgba: pixels, ..old(self).images@[d.handle] }),
                    )
                    &&& final(self).pyramids@ == old(self).pyramids@.remove(d.handle)
                },
                Err(e) => {
                    &&& final(self).same_images(*old(self))
                    &&& match old(self).layers {
                        None => e@ == no_stack(),
                        Some(doc) => {
                            &&& !pixels.covers(doc.stack.columns(), doc.stack.rows())
                            &&& e@ == "internal: composite extent does not match the bound image"@
                        },
                    }
                },
            },
    {
        let (handle, width, height): (u32, u32, u32) = match &self.layers {
            Some(d) => (d.handle, d.stack.width(), d.stack.height()),
            None => {
                return Err("no layer stack open (layers_open first)".to_owned());
            },
        };
        match self.set_image_pixels(handle, pixels) {
            Ok(()) => Ok(DecodedHandle { handle, width, height, display: self.read_display(handle) }),
            Err(e) => Err(e),
        }
    }
}

/// An adjustment runs over its image through the selection: a neutral chain hands
/// the image back, any other takes the image itself, and what the selection of that
/// image leaves out is left out, whatever another image has selected.
pub proof fn an_adjustment_runs_through_the_selection<F: Fn(Scalar) -> u32>(
    s: Session,
    handle: u32,
    params: AdjustParams,
    radius: F,
    run: Result<AdjustRun, String>,
)
    requires
        s.runs_adjust(handle, params, true, radius, run),
        s.images@.contains_key(handle),
    ensures
        params.unchanged() ==> (run matches Ok(AdjustRun::Verbatim(bytes)) && bytes@
            == s.images@[handle].rgba.narrow()),
        !params.unchanged() ==> (run matches Ok(AdjustRun::Stages { image, mask, .. }) && image
            == s.images@[handle] && (mask is Some <==> {
            &&& s.selection.image() matches Some(b) && b.handle == handle
            &&& s.selection.field() matches Some(c) && exists|i: int|
                0 <= i < c.cells().len() && #[trigger] c.cells()[i] < 255
        }) && (mask matches Some(m) ==> s.selection.field() == Some(*m))),
{
    if let Ok(AdjustRun::Stages { image, stages, mask }) = run {
        crate::selection::a_mask_is_the_selection_of_its_image(s.selection, handle, mask);
    }
}

/// A fill paints over what is shown: the active layer of the stack that is bound to
/// the image, and the image itself where there is none; in either case through the
/// selection of the image.
pub proof fn a_fill_paints_over_what_is_shown(
    s: Session,
    handle: u32,
    prelude: Result<FillPrelude, String>,
)
    requires
        s.preludes(handle, true, prelude),
        s.images@.contains_key(handle),
    ensures
        prelude is Ok <==> !(s.layers matches Some(d) && d.handle == handle
            && d.stack.list()[d.stack.current()].locked),
        prelude matches Ok(p) ==> {
            &&& match s.layers {
                Some(d) if d.handle == handle => {
                    &&& p.layered
                    &&& p.image.rgba == d.stack.list()[d.stack.current()].rgba
                    &&& p.image.width == d.stack.columns()
                    &&& p.image.height == d.stack.rows()
                },
                _ => !p.layered && p.image == s.images@[handle],
            }
            &&& p.mask is Some <==> {
                &&& s.selection.image() matches Some(b) && b.handle == handle
                &&& s.selection.field() matches Some(c) && exists|i: int|
                    0 <= i < c.cells().len() && #[trigger] c.cells()[i] < 255
            }
            &&& p.mask matches Some(m) ==> s.selection.field() == Some(*m)
        },
{
    if let Ok(p) = prelude {
        crate::selection::a_mask_is_the_selection_of_its_image(s.selection, handle, p.mask);
    }
}

/// A fill lands where it was painted: in the active layer alone, with the pixels from
/// before on record, or in an image of its own that leaves every other as it was.
pub proof fn a_fill_lands_where_it_was_painted(
    before: Session,
    width: u32,
    height: u32,
    pixels: Seq<u8>,
    layered: bool,
    landing: Landing,
    after: Session,
)
    requires
        before.wf(),
        before.lands(width, height, pixels, layered, Ok(landing), after),
    ensures
        layered ==> (landing matches Landing::Edited(r) && before.layers matches Some(d)
            && after.layers matches Some(e) && ({
            let at = d.stack.current();
            &&& e.stack.list().len() == d.stack.list().len()
            &&& e.stack.list()[at].rgba.stored() == pixels
            &&& forall|i: int|
                0 <= i < d.stack.list().len() && i != at ==> #[trigger] e.stack.list()[i]
                    == d.stack.list()[i]
            &&& r.before == d.stack.list()[at].rgba
            &&& r.scope == d.stack.list()[at].id
            &&& after.images@ == before.images@
        })),
        !layered ==> (landing matches Landing::Registered(id)
            && after.images@[id.handle].rgba.stored() == pixels && after.images@[id.handle].width
            == width && after.images@[id.handle].height == height && forall|h: u32|
            h != id.handle && before.images@.contains_key(h) ==> after.images@.contains_key(h)
                && #[trigger] after.images@[h] == before.images@[h]),
{
    if layered {
        let r = landing->Edited_0;
        let damage = choose|damage: Region| #[trigger]
            fill_damage(before.selection, width, height, damage) && before.edits(
                after,
                "Fill"@,
                damage,
                pixels,
                r,
            );
        let d = before.layers.unwrap();
        let e = after.layers.unwrap();
        assert(0 <= d.stack.current() < d.stack.list().len());
        assert(e.stack.list()[d.stack.current()] == after.active_layer());
    }
}

/// A tile is cut from its own level: the pixel `(i, j)` of it is the level's pixel that
/// lies that far from the tile's corner.
pub proof fn a_tile_is_cut_from_its_level(
    image: DecodedImage,
    level: nat,
    x: int,
    y: int,
    size: int,
    i: int,
    j: int,
    c: int,
    across: int,
)
    requires
        0 <= x,
        0 <= y,
        0 <= i < size,
        0 <= j < size,
        0 <= c < 4,
        level > 0 ==> crate::mip::level_extent(image.width as int, (level - 1) as nat) > 1
            || crate::mip::level_extent(image.height as int, (level - 1) as nat) > 1,
        x + i < crate::mip::level_extent(image.width as int, level),
        y + j < crate::mip::level_extent(image.height as int, level),
        across == (if x + size <= crate::mip::level_extent(image.width as int, level) {
            size
        } else {
            crate::mip::level_extent(image.width as int, level) - x
        }),
    ensures
        level_window(image, level, x, y, size)[4 * (j * across + i) + c] == crate::mip::level_pixels(
            image.bytes8(),
            image.width as int,
            image.height as int,
            level,
        )[4 * ((y + j) * crate::mip::level_extent(image.width as int, level) + x + i) + c],
{
    let iw = crate::mip::level_extent(image.width as int, level);
    let ih = crate::mip::level_extent(image.height as int, level);
    let px = crate::mip::level_pixels(
        image.bytes8(),
        image.width as int,
        image.height as int,
        level,
    );
    let down = if y + size <= ih {
        size
    } else {
        ih - y
    };
    let p = j * across + i;
    crate::grid::lemma_pixel_index(i, j, across, down);
    crate::grid::lemma_split(4, p, c);
    assert(0 <= (y + j) * iw) by (nonlinear_arith)
        requires
            0 <= y + j,
            0 <= iw,
    ;
    assert(0 <= 4 * p + c < 4 * (across * down));
}

/// Past the level of a single pixel there is none, and a tile of it is empty.
pub proof fn a_level_past_the_last_is_empty(
    image: DecodedImage,
    level: nat,
    x: int,
    y: int,
    size: int,
)
    requires
        level > 0,
        crate::mip::level_extent(image.width as int, (level - 1) as nat) <= 1,
        crate::mip::level_extent(image.height as int, (level - 1) as nat) <= 1,
    ensures
        level_window(image, level, x, y, size).len() == 0,
{
}

/// A wand is let onto the image that the selection is bound to exactly where its seed
/// lies on it.
pub proof fn a_wand_starts_on_its_image(s: Session, x: u32, y: u32)
    ensures
        s.wand_refusal(x, y) is None <==> s.selection.image() is Some && ({
            let b = s.selection.image()->0;
            s.images@.contains_key(b.handle) && x < s.images@[b.handle].width && y
                < s.images@[b.handle].height
        }),
{
}

/// A resize goes ahead exactly where it has a target, a device, an image and one of the
/// three filters.
pub proof fn a_resize_needs_a_target_and_a_device(
    s: Session,
    handle: u32,
    out_w: u32,
    out_h: u32,
    filter: Seq<char>,
    device: bool,
)
    ensures
        s.resize_refusal(handle, out_w, out_h, filter, device) is None <==> out_w > 0 && out_h > 0
            && device && s.images@.contains_key(handle) && (filter == "nearest"@ || filter
            == "mitchell"@ || filter == "lanczos3"@),
{
}

/// Pixels that are taken in become an image of their own: under a handle that no image
/// had, at the stated extent, byte for byte, and every other image stays.
pub proof fn an_image_is_taken_in_under_a_new_handle(
    before: Session,
    width: u32,
    height: u32,
    bytes: Seq<u8>,
    after: Session,
    id: DecodedHandle,
    other: u32,
)
    requires
        before.registers(width, height, bytes, after, id),
        before.wf(),
        other != id.handle,
    ensures
        id.width == width && id.height == height,
        !before.images@.contains_key(id.handle),
        after.images@.contains_key(id.handle),
        after.images@[id.handle].width == width,
        after.images@[id.handle].height == height,
        after.images@[id.handle].rgba.stored() == bytes,
        bytes.len() == 4 * (width * height),
        after.images@[id.handle].display is AssumedSrgb,
        before.images@.contains_key(other) <==> after.images@.contains_key(other),
        before.images@.contains_key(other) ==> after.images@[other] == before.images@[other],
{
}

} // verus!
