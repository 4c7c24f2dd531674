//! The session's doors for layers and strokes.
use crate::adjust::AdjustParams;
use crate::bridge::rgba8_to_f16;
use crate::composite::Composite;
use crate::coverage::{Region, SelectionCoverage};
use crate::display::DisplayTreatment;
use crate::ingest::DecodedImage;
use crate::layers::{EditRecord, HistoryStep, Layer, LayerStack, Plate};
use crate::pixels::Pixels;
use crate::scalar::{Scalar, ZERO};
use crate::session::{DecodedHandle, Landing, LayerDoc, Session};
use crate::strings::{push_decimal, push_len};
use crate::stroke::{StrokeParams, StrokeSession};
use std::sync::Arc;
use vstd::prelude::*;

verus! {

broadcast use vstd::std_specs::hash::group_hash_axioms;

/// The sentence for an imported stack of another extent than its image.
pub open spec fn import_mismatch(w: u32, h: u32, iw: u32, ih: u32) -> Seq<char> {
    "PSD layer import is "@ + crate::strings::decimal(w as nat) + "×"@ + crate::strings::decimal(
        h as nat,
    ) + " but the ingested composite is "@ + crate::strings::decimal(iw as nat) + "×"@
        + crate::strings::decimal(ih as nat)
}

fn import_mismatch_text(w: u32, h: u32, iw: u32, ih: u32) -> (text: String)
    ensures
        text@ == import_mismatch(w, h, iw, ih),
{
    let mut text: String = "PSD layer import is ".to_owned();
    push_decimal(&mut text, w as u128);
    text.append("×");
    push_decimal(&mut text, h as u128);
    text.append(" but the ingested composite is ");
    push_decimal(&mut text, iw as u128);
    text.append("×");
    push_decimal(&mut text, ih as u128);
    text
}

/// 16: the largest scale of a smart object.
pub const MAX_SCALE: u32 = 0x4180_0000;

/// Whether a smart object can be rendered at a scale.
pub open spec fn renders_at(scale: Scalar) -> bool {
    crate::scalar::zero().below(scale) && !(Scalar { bits: MAX_SCALE }).below(scale)
}

/// What a render of a smart object runs: its preserved source as a working
/// window.
#[derive(Debug)]
pub struct SmartRun {
    pub width: u32,
    pub height: u32,
    pub window: Vec<u8>,
}

/// The map of a letterbox: pixel `p` of a canvas with rows of `cw` pixels, in a
/// render with rows of `w` pixels; -1 beside it.
pub open spec fn letterbox_map(w: int, h: int, cw: int) -> spec_fn(int) -> int {
    |p: int|
        if p % cw < w && p / cw < h {
            (p / cw) * w + p % cw
        } else {
            -1
        }
}

/// A render at the top left of a transparent canvas, cut to it.
pub open spec fn letterboxed(small: Seq<u8>, w: int, h: int, cw: int, ch: int) -> Seq<u8> {
    crate::grid::gathered(small, 4, (cw * ch) as nat, letterbox_map(w, h, cw))
}

/// Place a render at the top left of a transparent canvas, cut to it.
pub fn letterbox(small: &[u8], w: u32, h: u32, cw: u32, ch: u32) -> (canvas: Vec<u8>)
    requires
        small@.len() == w * h * 4,
        cw * ch * 4 <= usize::MAX,
    ensures
        canvas@ == letterboxed(small@, w as int, h as int, cw as int, ch as int),
{
    let len: usize = small.len();
    let ghost map = letterbox_map(w as int, h as int, cw as int);
    proof {
        assert(0 <= cw * ch) by (nonlinear_arith)
            requires
                0 <= cw,
                0 <= ch,
        ;
        assert forall|p: int| 0 <= p < cw * ch && 0 <= #[trigger] map(p) implies 4 * map(p) + 4
            <= small@.len() by {
            assert(0 < cw) by (nonlinear_arith)
                requires
                    0 <= p < cw * ch,
                    0 <= cw,
                    0 <= ch,
            ;
            crate::grid::lemma_coordinates(p, cw as int, ch as int);
            crate::grid::lemma_pixel_index(p % (cw as int), p / (cw as int), w as int, h as int);
        }
    }
    let n: usize = cw as usize * ch as usize;
    let pick = |p: usize| -> (q: Option<usize>)
        requires
            p < n,
            n == cw * ch,
            w * h * 4 <= usize::MAX,
        ensures
            match q {
                Some(i) => i == letterbox_map(w as int, h as int, cw as int)(p as int),
                None => letterbox_map(w as int, h as int, cw as int)(p as int) < 0,
            },
        {
            proof {
                assert(0 < cw) by (nonlinear_arith)
                    requires
                        0 <= p < cw * ch,
                        0 <= cw,
                        0 <= ch,
                ;
                crate::grid::lemma_coordinates(p as int, cw as int, ch as int);
            }
            let x: usize = p % cw as usize;
            let y: usize = p / cw as usize;
            if x < w as usize && y < h as usize {
                proof {
                    crate::grid::lemma_pixel_index(x as int, y as int, w as int, h as int);
                    assert(0 <= y * w) by (nonlinear_arith)
                        requires
                            0 <= y,
                            0 <= w,
                    ;
                }
                Some(y * w as usize + x)
            } else {
                None
            }
        };
    crate::grid::gather(small, 4, n, pick, Ghost(map))
}

impl Session {
    // ── layers ──

    /// Open a stack over an image: one layer that shares its pixels. Opening it
    /// again over the same image keeps the stack; over another, replaces it.
    pub fn layers_open(&mut self, handle: u32) -> (done: Result<(), String>)
        requires
            old(self).wf(),
        ensures
            final(self).wf(),
            final(self).same_images(*old(self)),
            final(self).selection == old(self).selection,
            final(self).stroke == old(self).stroke,
            done is Ok <==> old(self).stacked(handle) || (old(self).images@.contains_key(handle)
                && old(self).images@[handle].width > 0 && old(self).images@[handle].height > 0),
            done is Err || old(self).stacked(handle) ==> final(self).layers == old(self).layers,
            done is Ok && !old(self).stacked(handle) ==> {
                let i = old(self).images@[handle];
                &&& final(self).layers matches Some(d)
                &&& d.handle == handle
                &&& d.stack.columns() == i.width
                &&& d.stack.rows() == i.height
                &&& d.stack.list().len() == 1
                &&& d.stack.list()[0].kind is Pixels
                &&& crate::layers::pristine(d.stack.list()[0], 1, "Background"@)
                &&& d.stack.list()[0].rgba == i.rgba
                &&& d.stack.current() == 0
            },
            done matches Err(e) ==> e@ == (if old(self).images@.contains_key(handle) {
                let i = old(self).images@[handle];
                "decode: "@ + LayerStack::bad_stack(
                    i.rgba.stored().len(),
                    i.width,
                    i.height,
                    (i.width * i.height * i.rgba.stride()) as nat,
                )
            } else {
                crate::session::unknown_image(handle)
            }),
    {
        if self.is_stacked(handle) {
            return Ok(());
        }
        let image: DecodedImage = match self.image(handle) {
            Ok(i) => i,
            Err(e) => {
                return Err(e);
            },
        };
        match LayerStack::from_image_px(image.width, image.height, image.rgba) {
            Ok(stack) => {
                self.layers = Some(LayerDoc { handle, stack });
                Ok(())
            },
            Err(e) => Err(e.to_text()),
        }
    }

    /// Open a stack from a layered file's own layers, over the composite that
    /// was ingested from the same file. Returns how many there are. A refusal
    /// leaves the stack as it was.
    pub fn layers_open_from_psd(
        &mut self,
        image_handle: u32,
        width: u32,
        height: u32,
        plates: &Vec<Plate>,
    ) -> (count: Result<usize, String>)
        requires
            old(self).wf(),
            plates@.len() < u32::MAX,
        ensures
            final(self).wf(),
            final(self).same_images(*old(self)),
            final(self).selection == old(self).selection,
            final(self).stroke == old(self).stroke,
            ({
                let i = old(self).images@[image_handle];
                let fits = plates@.len() > 0 && forall|k: int|
                    0 <= k < plates@.len() ==> (#[trigger] plates@[k]).rgba@.len() == width * height
                        * 4;
                &&& count is Ok <==> old(self).images@.contains_key(image_handle) && width
                    == i.width && height == i.height && fits
                &&& count is Err ==> final(self).layers == old(self).layers
                &&& count matches Ok(n) ==> {
                    &&& n == plates@.len()
                    &&& final(self).layers matches Some(d)
                    &&& d.handle == image_handle
                    &&& d.stack.columns() == width
                    &&& d.stack.rows() == height
                    &&& d.stack.list().len() == plates@.len()
                    &&& forall|k: int|
                        0 <= k < plates@.len() ==> crate::layers::plate_layer(
                            plates@[k],
                            k,
                            #[trigger] d.stack.list()[k],
                        )
                    &&& d.stack.current() == plates@.len() - 1
                }
                &&& count matches Err(e) ==> if !old(self).images@.contains_key(image_handle) {
                    e@ == crate::session::unknown_image(image_handle)
                } else if width != i.width || height != i.height {
                    e@ == import_mismatch(width, height, i.width, i.height)
                } else if plates@.len() == 0 {
                    e@ == "unsupported: "@ + "PSD layer import produced no layers"@
                } else {
                    exists|k: int|
                        0 <= k < plates@.len() && (#[trigger] plates@[k]).rgba@.len() != width
                            * height * 4 && (forall|j: int|
                            0 <= j < k ==> (#[trigger] plates@[j]).rgba@.len() == width * height
                                * 4) && e@ == "decode: "@ + crate::layers::bad_plate(
                            plates@[k].name@,
                            plates@[k].rgba@.len(),
                            width,
                            height,
                            (width * height * 4) as nat,
                        )
                }
            }),
    {
        let image: DecodedImage = match self.image(image_handle) {
            Ok(i) => i,
            Err(e) => {
                return Err(e);
            },
        };
        if width != image.width || height != image.height {
            return Err(import_mismatch_text(width, height, image.width, image.height));
        }
        match LayerStack::from_psd_plates(width, height, plates) {
            Ok(stack) => {
                let n: usize = stack.len();
                self.layers = Some(LayerDoc { handle: image_handle, stack });
                Ok(n)
            },
            Err(e) => Err(e.to_text()),
        }
    }

    /// Close the stack.
    pub fn layers_close(&mut self)
        requires
            old(self).wf(),
        ensures
            final(self).wf(),
            final(self).same_images(*old(self)),
            final(self).selection == old(self).selection,
            final(self).stroke == old(self).stroke,
            final(self).layers is None,
    {
        self.layers = None;
    }

    /// The handle that the stack is bound to, or -1.
    pub fn layers_bound(&self) -> (handle: i64)
        ensures
            handle == (match self.layers {
                Some(d) => d.handle as int,
                None => -1,
            }),
    {
        match &self.layers {
            Some(d) => d.handle as i64,
            None => -1,
        }
    }

    /// Make the selection the mask of a layer. Without one this is an error: an
    /// all-one mask would look like success and mask nothing.
    pub fn layers_mask_from_selection(&mut self, index: usize) -> (done: Result<(), String>)
        requires
            old(self).wf(),
        ensures
            final(self).wf(),
            final(self).same_images(*old(self)),
            final(self).selection == old(self).selection,
            final(self).stroke == old(self).stroke,
            match (old(self).selection.field(), old(self).layers) {
                (None, _) => done matches Err(e) && e@
                    == "no selection to make a mask from — select an area first"@
                    && final(self).layers == old(self).layers,
                (Some(_), None) => done matches Err(e) && e@ == crate::session::no_stack()
                    && final(self).layers is None,
                (Some(c), Some(d)) => {
                    &&& final(self).layers matches Some(n)
                    &&& n.handle == d.handle
                    &&& n.stack.same_frame(d.stack)
                    &&& n.stack.current() == d.stack.current()
                    &&& done is Ok <==> c.columns() == d.stack.columns() && c.rows()
                        == d.stack.rows() && index < d.stack.list().len()
                    &&& done is Err ==> n.stack.list() == d.stack.list()
                    &&& done matches Err(e) ==> e@ == "unsupported: "@ + (if c.columns()
                        == d.stack.columns() && c.rows() == d.stack.rows() {
                        crate::layers::no_layer(index as nat)
                    } else {
                        LayerStack::bad_mask(
                            c.columns(),
                            c.rows(),
                            d.stack.columns(),
                            d.stack.rows(),
                        )
                    })
                    &&& done is Ok ==> {
                        &&& n.stack.list()[index as int].mask matches Some(m) && *m == c
                        &&& n.stack.list() == d.stack.list().update(
                            index as int,
                            Layer {
                                mask: n.stack.list()[index as int].mask,
                                mask_enabled: true,
                                ..d.stack.list()[index as int]
                            },
                        )
                    }
                },
            },
    {
        let coverage: Arc<SelectionCoverage> = match self.selection.coverage() {
            Some(c) => c,
            None => {
                return Err("no selection to make a mask from — select an area first".to_owned());
            },
        };
        let mut taken: Option<LayerDoc> = None;
        std::mem::swap(&mut taken, &mut self.layers);
        match taken {
            Some(mut doc) => {
                let done = doc.stack.set_mask(index, coverage);
                self.layers = Some(doc);
                match done {
                    Ok(()) => Ok(()),
                    Err(e) => Err(e.to_text()),
                }
            },
            None => Err("no layer stack open (layers_open first)".to_owned()),
        }
    }

    /// Whether a run starts from the pixels that a smart layer was made of.
    pub open spec fn renders(self, index: int, r: SmartRun) -> bool {
        &&& self.layers matches Some(d)
        &&& d.stack.list()[index].kind matches crate::layers::LayerKind::Smart(s)
        &&& r.width == s.width
        &&& r.height == s.height
        &&& r.window@ == crate::bridge::widened(s.rgba.narrow())
    }

    /// Whether a layer is a smart object.
    pub open spec fn smart(self, index: int) -> bool {
        self.layers matches Some(d) && 0 <= index < d.stack.list().len()
            && d.stack.list()[index].kind is Smart
    }

    /// What a render of a smart object runs: always its preserved source, never
    /// the render of another scale.
    pub fn smart_run(&self, index: usize, scale: Scalar, device: bool) -> (run: Result<
        SmartRun,
        String,
    >)
        requires
            self.wf(),
        ensures
            run is Ok <==> renders_at(scale) && device && self.smart(index as int),
            run matches Ok(r) ==> self.renders(index as int, r),
            run matches Err(e) ==> e@ == (if !renders_at(scale) {
                "smart re-render scale must be in (0, 16]"@
            } else if !device {
                "smart re-render is GPU-only — call init_gpu first"@
            } else {
                crate::layers::layer_sentence(index as nat, " is not a smart object"@)
            }),
    {
        if !(Scalar { bits: ZERO }).lt(scale) || (Scalar { bits: MAX_SCALE }).lt(scale) {
            return Err("smart re-render scale must be in (0, 16]".to_owned());
        }
        if !device {
            return Err("smart re-render is GPU-only — call init_gpu first".to_owned());
        }
        if let Some(d) = &self.layers {
            let layers: &[Layer] = d.stack.layers();
            if index < layers.len() {
                if let Some(s) = layers[index].smart_source() {
                    let view = s.rgba.to_rgba8();
                    return Ok(
                        SmartRun {
                            width: s.width,
                            height: s.height,
                            window: rgba8_to_f16(view.as_slice()),
                        },
                    );
                }
            }
        }
        let mut text: String = "layer ".to_owned();
        push_len(&mut text, index);
        text.append(" is not a smart object");
        Err(text)
    }

    /// Stack an adjustment above the active layer. A chain at identity is
    /// refused: a layer that adjusts nothing does nothing.
    pub fn layers_add_adjustment(&mut self, name: &str, params: AdjustParams) -> (at: Result<
        usize,
        String,
    >)
        requires
            old(self).wf(),
            old(self).layers matches Some(d) ==> d.stack.fresh() < u32::MAX && d.stack.list().len()
                < usize::MAX,
        ensures
            final(self).wf(),
            final(self).same_images(*old(self)),
            final(self).selection == old(self).selection,
            final(self).stroke == old(self).stroke,
            at is Ok <==> !params.unchanged() && old(self).layers is Some,
            at is Err ==> final(self).layers == old(self).layers,
            at matches Err(e) ==> e@ == (if params.unchanged() {
                "nothing to stack — the adjustment chain is at identity"@
            } else {
                crate::session::no_stack()
            }),
            at matches Ok(i) ==> {
                &&& old(self).layers matches Some(d)
                &&& final(self).layers matches Some(n)
                &&& n.handle == d.handle
                &&& n.stack.columns() == d.stack.columns()
                &&& n.stack.rows() == d.stack.rows()
                &&& i == d.stack.current() + 1
                &&& n.stack.current() == i
                &&& n.stack.list() == d.stack.list().insert(i as int, n.stack.list()[i as int])
                &&& n.stack.fresh() == d.stack.fresh() + 1
                &&& crate::layers::pristine(
                    n.stack.list()[i as int],
                    d.stack.fresh(),
                    crate::layers::named(name@, "Adjustment "@, d.stack.fresh()),
                )
                &&& n.stack.list()[i as int].kind == crate::layers::LayerKind::Adjustment(
                    Box::new(params),
                )
                &&& n.stack.list()[i as int].rgba.stored() == crate::layers::zeros(
                    d.stack.canvas() as nat,
                )
            },
    {
        if params.is_identity() {
            return Err("nothing to stack — the adjustment chain is at identity".to_owned());
        }
        let mut taken: Option<LayerDoc> = None;
        std::mem::swap(&mut taken, &mut self.layers);
        match taken {
            Some(mut doc) => {
                let at: usize = doc.stack.add_adjustment(name, params);
                self.layers = Some(doc);
                Ok(at)
            },
            None => Err("no layer stack open (layers_open first)".to_owned()),
        }
    }

    /// What is wrong with a bake, if anything, in the order it is tested.
    pub open spec fn bake_refusal(self, params: AdjustParams, device: bool) -> Option<Seq<char>> {
        if self.layers is None {
            Some(crate::session::no_stack())
        } else if self.active_layer().locked {
            Some(
                "unsupported: "@ + (LayerStack::locked_sentence(self.active_layer().name@)
                    + " — unlock it to paint on it"@),
            )
        } else if params.unchanged() {
            Some("nothing to bake — the adjustment chain is at identity"@)
        } else if !device {
            Some("baking an adjustment is GPU-only — call init_gpu first"@)
        } else {
            None
        }
    }

    /// Whether a bake runs over this.
    pub open spec fn bakes(
        self,
        params: AdjustParams,
        device: bool,
        run: Result<(DecodedImage, Option<Arc<SelectionCoverage>>), String>,
    ) -> bool {
        match run {
            Ok((image, mask)) => {
                &&& self.bake_refusal(params, device) is None
                &&& self.layers matches Some(d)
                &&& image.width == d.stack.columns()
                &&& image.height == d.stack.rows()
                &&& image.rgba == self.active_layer().rgba
                &&& image.display is AssumedSrgb
                &&& !image.depth_reduced
                &&& self.selection.masks(d.handle, mask)
                &&& mask is Some <==> (self.selection.image() matches Some(b) && b.handle
                    == d.handle) && (self.selection.field() matches Some(c) && !c.all_one())
                &&& mask matches Some(m) ==> self.selection.field() == Some(*m)
            },
            Err(e) => self.bake_refusal(params, device) == Some(e@),
        }
    }

    /// What a bake of the adjustment chain runs over: the active layer, through
    /// the selection of its image.
    pub fn bake_run(&self, params: &AdjustParams, device: bool) -> (run: Result<
        (DecodedImage, Option<Arc<SelectionCoverage>>),
        String,
    >)
        requires
            self.wf(),
        ensures
            self.bakes(*params, device, run),
    {
        let doc: &LayerDoc = match &self.layers {
            Some(d) => d,
            None => {
                return Err("no layer stack open (layers_open first)".to_owned());
            },
        };
        if let Err(e) = doc.stack.active_is_editable() {
            return Err(e.to_text());
        }
        if params.is_identity() {
            return Err("nothing to bake — the adjustment chain is at identity".to_owned());
        }
        if !device {
            return Err("baking an adjustment is GPU-only — call init_gpu first".to_owned());
        }
        Ok(
            (
                DecodedImage {
                    width: doc.stack.width(),
                    height: doc.stack.height(),
                    rgba: doc.stack.active().rgba.clone(),
                    display: DisplayTreatment::AssumedSrgb,
                    depth_reduced: false,
                },
                self.selection.mask_for(doc.handle),
            ),
        )
    }

    /// Bake adjusted pixels into the active layer, over the whole canvas.
    pub fn finish_bake(&mut self, pixels: Vec<u8>) -> (edit: Result<EditRecord, String>)
        requires
            old(self).wf(),
        ensures
            final(self).wf(),
            final(self).same_images(*old(self)),
            final(self).selection == old(self).selection,
            final(self).stroke == old(self).stroke,
            match edit {
                Ok(r) => {
                    &&& old(self).edit_refusal(pixels@.len()) is None
                    &&& old(self).layers matches Some(d)
                    &&& old(self).edits(
                        *final(self),
                        "Bake adjustments"@,
                        Region { x: 0, y: 0, w: d.stack.columns(), h: d.stack.rows() },
                        pixels@,
                        r,
                    )
                },
                Err(e) => {
                    &&& old(self).edit_refusal(pixels@.len()) == Some(e@)
                    &&& final(self).same_stack(*old(self))
                },
            },
    {
        let (w, h): (u32, u32) = match &self.layers {
            Some(d) => (d.stack.width(), d.stack.height()),
            None => (0, 0),
        };
        self.edit_layer("Bake adjustments", Region { x: 0, y: 0, w, h }, pixels)
    }

    /// Take a step of the journal: its label, or nothing where there is no step
    /// or it no longer applies.
    pub fn history_step(&mut self, step: Option<HistoryStep>) -> (label: Result<String, String>)
        requires
            old(self).wf(),
        ensures
            final(self).wf(),
            final(self).same_images(*old(self)),
            final(self).selection == old(self).selection,
            final(self).stroke == old(self).stroke,
            label is Ok <==> old(self).layers is Some,
            label matches Err(e) ==> e@ == crate::session::no_stack() && final(self).layers is None,
            label matches Ok(text) ==> {
                &&& old(self).layers matches Some(d)
                &&& final(self).layers matches Some(n)
                &&& n.handle == d.handle
                &&& match step {
                    None => text@.len() == 0 && n.stack == d.stack,
                    Some(s) => LayerStack::stepped(d.stack, n.stack, s, Some(text@)) || (
                    LayerStack::stepped(d.stack, n.stack, s, None) && text@.len() == 0),
                }
            },
    {
        let mut taken: Option<LayerDoc> = None;
        std::mem::swap(&mut taken, &mut self.layers);
        match taken {
            Some(mut doc) => {
                let label: Option<String> = match step {
                    Some(s) => doc.stack.undo(s),
                    None => None,
                };
                self.layers = Some(doc);
                match label {
                    Some(text) => Ok(text),
                    None => Ok(String::new()),
                }
            },
            None => Err("no layer stack open (layers_open first)".to_owned()),
        }
    }

    // ── strokes ──

    /// What is wrong with beginning a stroke, if anything, in the order it is
    /// tested.
    pub open spec fn stroke_refusal(self, handle: u32, device: bool) -> Option<Seq<char>> {
        if !self.images@.contains_key(handle) {
            Some(crate::session::unknown_image(handle))
        } else if !device {
            Some(
                "painting is GPU-only — call init_gpu first (the dab composite is a registered WGSL kernel dispatch; no CPU blend path ships)"@,
            )
        } else if self.stacked(handle) && self.active_layer().locked {
            Some(
                "unsupported: "@ + (LayerStack::locked_sentence(self.active_layer().name@)
                    + " — unlock it to paint on it"@),
            )
        } else {
            None
        }
    }

    /// The pixels that a stroke paints over: the active layer's where a stack is
    /// bound to the image, else the image's own.
    pub open spec fn stroke_base(self, handle: u32) -> Seq<u8> {
        if self.stacked(handle) {
            self.active_layer().rgba.narrow()
        } else {
            self.images@[handle].bytes8()
        }
    }

    /// Whether a stroke began like this.
    pub open spec fn begins(
        self,
        handle: u32,
        params: StrokeParams,
        device: bool,
        done: Result<(), String>,
        after: Session,
    ) -> bool {
        &&& (self.stroke_refusal(handle, device) matches Some(text) ==> (done matches Err(e)
            && e@ == text))
        &&& (self.stroke_refusal(handle, device) is None ==> {
            let i = self.images@[handle];
            let base = self.stroke_base(handle);
            &&& done is Ok <==> i.width > 0 && i.height > 0
            &&& done matches Err(e) ==> e@ == "unsupported: "@
                + "cannot paint on an empty image"@
            &&& done is Ok ==> {
                &&& after.stroke matches Some(s)
                &&& s.document() == handle
                &&& s.columns() == i.width
                &&& s.rows() == i.height
                &&& s.untouched() == base
                &&& s.painted() == base
                &&& crate::stroke::sanitizes(params, s.frozen())
                &&& self.selection.masks(handle, s.mask())
                &&& s.mask() is Some <==> (self.selection.image() matches Some(b)
                    && b.handle == handle) && (self.selection.field() matches Some(c)
                    && !c.all_one())
                &&& s.mask() matches Some(m) ==> self.selection.field() == Some(*m)
            }
        })
    }

    /// Begin a stroke. Its parameters and the selection are frozen here.
    pub fn stroke_begin(&mut self, handle: u32, params: StrokeParams, device: bool) -> (done: Result<
        (),
        String,
    >)
        requires
            old(self).wf(),
        ensures
            final(self).wf(),
            final(self).same_images(*old(self)),
            final(self).selection == old(self).selection,
            final(self).layers == old(self).layers,
            done is Err ==> final(self).stroke == old(self).stroke,
            old(self).begins(handle, params, device, done, *final(self)),
    {
        let image: DecodedImage = match self.image(handle) {
            Ok(i) => i,
            Err(e) => {
                return Err(e);
            },
        };
        if !device {
            return Err(
                "painting is GPU-only — call init_gpu first (the dab composite is a registered WGSL kernel dispatch; no CPU blend path ships)".to_owned(),
            );
        }
        let mask: Option<Arc<SelectionCoverage>> = self.selection.mask_for(handle);
        let target: DecodedImage = match &self.layers {
            Some(d) => if d.handle == handle {
                if let Err(e) = d.stack.active_is_editable() {
                    return Err(e.to_text());
                }
                DecodedImage {
                    width: image.width,
                    height: image.height,
                    rgba: d.stack.active().rgba.clone(),
                    display: image.display,
                    depth_reduced: image.depth_reduced,
                }
            } else {
                image
            },
            None => image,
        };
        proof {
            crate::ingest::narrow_is_sized(target.rgba, target.width, target.height);
        }
        match StrokeSession::begin(handle, &target, params, mask) {
            Ok(s) => {
                self.stroke = Some(s);
                Ok(())
            },
            Err(e) => Err(e.to_text()),
        }
    }

    /// Whether a preview shows a stroke over what it paints on: in the composite of
    /// its stack, in place of the active layer, or alone.
    pub open spec fn previews(self, s: StrokeSession, c: Composite) -> bool {
        if self.stacked(s.document()) {
            exists|px: Pixels|
                #![trigger px.stored()]
                px.stored() == s.painted() && px.sample_depth() is U8
                    && crate::composite::composed(self.layers.unwrap().stack, Some(px), c)
        } else {
            c matches Composite::Done(px) && px.stored() == s.painted()
        }
    }

    /// What the stroke in flight looks like: the whole stack, with the painted
    /// pixels in place of the active layer's. Nothing is changed by looking.
    pub fn stroke_preview(&self, device: bool) -> (preview: Result<Composite, String>)
        requires
            self.wf(),
        ensures
            match (self.stroke, preview) {
                (None, Err(e)) => e@ == "no stroke in progress (brush_stroke_begin first)"@,
                (None, Ok(_)) => false,
                (Some(s), Ok(c)) => self.previews(s, c),
                (Some(s), Err(e)) => {
                    &&& self.stacked(s.document())
                    &&& !device
                    &&& exists|px: Pixels|
                        #![trigger px.stored()]
                        px.stored() == s.painted() && px.sample_depth() is U8
                            && !crate::composite::trivial(
                            self.layers.unwrap().stack,
                            Some(px),
                        )
                    &&& e@ == "unsupported: "@ + crate::composite::needs_device()
                },
            },
    {
        let session: &StrokeSession = match &self.stroke {
            Some(s) => s,
            None => {
                return Err("no stroke in progress (brush_stroke_begin first)".to_owned());
            },
        };
        let mut bytes: Vec<u8> = Vec::new();
        bytes.extend_from_slice(session.pixels());
        proof {
            assert(bytes@ =~= session.painted());
        }
        let painted: Pixels = Pixels::from_vec(bytes);
        if let Some(d) = &self.layers {
            if d.handle == session.handle() {
                let plan = d.stack.composite(device, Some(&painted));
                proof {
                    let px = painted;
                    assert(px.stored() == session.painted());
                }
                return match plan {
                    Ok(c) => Ok(c),
                    Err(e) => Err(e.to_text()),
                };
            }
        }
        Ok(Composite::Done(painted))
    }

    /// Whether a stroke was committed like this.
    pub open spec fn commits(
        self,
        bounds: Option<Region>,
        landing: Result<Landing, String>,
        after: Session,
    ) -> bool {
        &&& (self.stroke is None ==> {
            &&& landing matches Err(e) && e@ == "no stroke in progress"@
            &&& after.same_images(self)
            &&& after.layers == self.layers
        })
        &&& (self.stroke matches Some(s) ==> if !self.stacked(s.document()) {
            &&& landing matches Ok(Landing::Registered(d))
            &&& self.registers(
                s.columns(),
                s.rows(),
                s.painted(),
                after,
                d,
            )
            &&& after.layers == self.layers
        } else {
            &&& after.same_images(self)
            &&& match bounds {
                None => {
                    &&& landing matches Ok(Landing::Untouched(d))
                    &&& d.handle == s.document()
                    &&& d.width == s.columns()
                    &&& d.height == s.rows()
                    &&& d.display == self.images@[d.handle].display.code()
                    &&& after.layers == self.layers
                },
                Some(damage) => {
                    &&& landing is Ok <==> self.edit_refusal(s.painted().len()) is None
                    &&& landing matches Ok(l) ==> l matches Landing::Edited(r) && self.edits(after, "Paint"@, damage, s.painted(), r)
                    &&& landing matches Err(e) ==> self.edit_refusal(
                        s.painted().len(),
                    ) == Some(e@) && after.same_stack(self)
                },
            }
        })
    }

    /// Commit the stroke. Without a stack on its image the painted pixels become
    /// a new image; with one they go into the active layer, and a stroke that
    /// landed nowhere changes nothing.
    pub fn stroke_commit(&mut self, bounds: Option<Region>) -> (landing: Result<Landing, String>)
        requires
            old(self).wf(),
            old(self).next_handle < u32::MAX,
        ensures
            final(self).wf(),
            final(self).selection == old(self).selection,
            final(self).stroke is None,
            old(self).commits(bounds, landing, *final(self)),
    {
        let mut taken: Option<StrokeSession> = None;
        std::mem::swap(&mut taken, &mut self.stroke);
        let session: StrokeSession = match taken {
            Some(s) => s,
            None => {
                return Err("no stroke in progress".to_owned());
            },
        };
        let (w, h, handle): (u32, u32, u32) = (session.width(), session.height(), session.handle());
        let painted: Vec<u8> = session.commit();
        if !self.is_stacked(handle) {
            return match self.ingest_rgba8(w, h, painted) {
                Ok(d) => Ok(Landing::Registered(d)),
                Err(e) => Err(e),
            };
        }
        let damage: Region = match bounds {
            Some(r) => r,
            None => {
                return Ok(
                    Landing::Untouched(
                        DecodedHandle {
                            handle,
                            width: w,
                            height: h,
                            display: self.read_display(handle),
                        },
                    ),
                );
            },
        };
        match self.edit_layer("Paint", damage, painted) {
            Ok(r) => Ok(Landing::Edited(r)),
            Err(e) => Err(e),
        }
    }

    /// Cancel the stroke. Its source was never changed, so this restores it.
    pub fn stroke_cancel(&mut self)
        requires
            old(self).wf(),
        ensures
            final(self).wf(),
            final(self).same_images(*old(self)),
            final(self).selection == old(self).selection,
            final(self).layers == old(self).layers,
            final(self).stroke is None,
    {
        self.stroke = None;
    }
}

/// A letterboxed render lies at the top left of its canvas, pixel on pixel; what does
/// not fit is cut off, and beside it the canvas is transparent.
pub proof fn a_letterbox_keeps_the_render_in_its_corner(
    small: Seq<u8>,
    w: int,
    h: int,
    cw: int,
    ch: int,
    x: int,
    y: int,
    k: int,
)
    requires
        0 <= w,
        0 <= h,
        small.len() == 4 * (w * h),
        0 <= x < cw,
        0 <= y < ch,
        0 <= k < 4,
    ensures
        letterboxed(small, w, h, cw, ch)[4 * (y * cw + x) + k] == (if x < w && y < h {
            small[4 * (y * w + x) + k]
        } else {
            0
        }),
{
    crate::grid::lemma_pixel_index(x, y, cw, ch);
    let map = letterbox_map(w, h, cw);
    if x < w && y < h {
        crate::grid::lemma_pixel_index(x, y, w, h);
    }
    crate::grid::gathered_pixel(small, 4, (cw * ch) as nat, map, y * cw + x, k);
}

/// A bake runs over the active layer through the selection of its image.
pub proof fn a_bake_runs_over_the_active_layer(
    s: Session,
    params: AdjustParams,
    device: bool,
    image: DecodedImage,
    mask: Option<Arc<SelectionCoverage>>,
)
    requires
        s.bakes(params, device, Ok((image, mask))),
    ensures
        s.layers matches Some(d) && ({
            let l = d.stack.list()[d.stack.current()];
            &&& !l.locked
            &&& image.rgba == l.rgba
            &&& image.width == d.stack.columns() && image.height == d.stack.rows()
            &&& mask is Some <==> {
                &&& s.selection.image() matches Some(b) && b.handle == d.handle
                &&& s.selection.field() matches Some(c) && exists|i: int|
                    0 <= i < c.cells().len() && #[trigger] c.cells()[i] < 255
            }
            &&& mask matches Some(m) ==> s.selection.field() == Some(*m)
        }),
{
    crate::selection::a_mask_is_the_selection_of_its_image(
        s.selection,
        s.layers.unwrap().handle,
        mask,
    );
}

/// A stroke starts from what it paints on, unpainted: the active layer of the stack
/// that is bound to the image, and the image itself where there is none. The
/// selection of the image is frozen with it.
pub proof fn a_stroke_starts_from_what_it_paints_on(
    before: Session,
    handle: u32,
    params: StrokeParams,
    after: Session,
)
    requires
        before.begins(handle, params, true, Ok(()), after),
        before.stroke_refusal(handle, true) is None,
    ensures
        after.stroke matches Some(s) && ({
            let base = match before.layers {
                Some(d) if d.handle == handle => d.stack.list()[d.stack.current()].rgba.narrow(),
                _ => before.images@[handle].rgba.narrow(),
            };
            &&& s.untouched() == base
            &&& s.painted() == base
            &&& s.document() == handle
            &&& s.columns() == before.images@[handle].width
            &&& s.rows() == before.images@[handle].height
            &&& s.frozen().tool == params.tool
            &&& s.frozen().blend == params.blend
            &&& s.mask() is Some <==> {
                &&& before.selection.image() matches Some(b) && b.handle == handle
                &&& before.selection.field() matches Some(c) && exists|i: int|
                    0 <= i < c.cells().len() && #[trigger] c.cells()[i] < 255
            }
            &&& s.mask() matches Some(m) ==> before.selection.field() == Some(*m)
        }),
{
    crate::selection::a_mask_is_the_selection_of_its_image(
        before.selection,
        handle,
        after.stroke.unwrap().mask(),
    );
}

/// A stroke lands where it was painted: on a stack its pixels become the active
/// layer's and no other layer changes, with the pixels from before on record; else
/// they become an image of their own, and the source stays as it was. A stroke that
/// touched nothing leaves the stack alone.
pub proof fn a_stroke_lands_where_it_was_painted(
    before: Session,
    s: StrokeSession,
    bounds: Option<Region>,
    landing: Landing,
    after: Session,
)
    requires
        before.wf(),
        before.stroke == Some(s),
        before.commits(bounds, Ok(landing), after),
    ensures
        match before.layers {
            Some(d) if d.handle == s.document() => match bounds {
                None => after.layers == before.layers && after.images@ == before.images@,
                Some(_) => {
                    &&& landing matches Landing::Edited(r)
                    &&& after.layers matches Some(e)
                    &&& e.stack.list().len() == d.stack.list().len()
                    &&& e.stack.list()[d.stack.current()].rgba.stored() == s.painted()
                    &&& forall|i: int|
                        0 <= i < d.stack.list().len() && i != d.stack.current()
                            ==> #[trigger] e.stack.list()[i] == d.stack.list()[i]
                    &&& r.before == d.stack.list()[d.stack.current()].rgba
                    &&& r.scope == d.stack.list()[d.stack.current()].id
                    &&& after.images@ == before.images@
                },
            },
            _ => {
                &&& landing matches Landing::Registered(id)
                &&& after.images@[id.handle].rgba.stored() == s.painted()
                &&& after.layers == before.layers
                &&& forall|h: u32|
                    h != id.handle && before.images@.contains_key(h) ==> after.images@.contains_key(
                        h,
                    ) && #[trigger] after.images@[h] == before.images@[h]
            },
        },
{
    if before.stacked(s.document()) && bounds is Some {
        let d = before.layers.unwrap();
        let e = after.layers.unwrap();
        assert(0 <= d.stack.current() < d.stack.list().len());
        assert(e.stack.list()[d.stack.current()] == after.active_layer());
    }
}

/// A committed stroke undoes: the step that its record stands for brings every layer
/// back as it was before the stroke, and leaves the painted one active.
pub proof fn a_committed_stroke_undoes(
    before: Session,
    s: StrokeSession,
    damage: Region,
    record: EditRecord,
    after: Session,
    step: HistoryStep,
    undone: LayerStack,
    label: Option<Seq<char>>,
)
    requires
        before.wf(),
        after.wf(),
        before.stroke == Some(s),
        before.stacked(s.document()),
        before.commits(Some(damage), Ok(Landing::Edited(record)), after),
        before.active_layer().rgba.sample_depth() is U8,
        step.scope == record.scope,
        step.pixels == record.before,
        step.label@ == record.label@,
        LayerStack::stepped(after.layers.unwrap().stack, undone, step, label),
    ensures
        label == Some("Paint"@),
        undone.list() == before.layers.unwrap().stack.list(),
        undone.current() == before.layers.unwrap().stack.current(),
{
    let b = before.layers.unwrap().stack;
    let a = after.layers.unwrap().stack;
    crate::layers::an_edit_undoes_exactly(b, after.active_layer().rgba, a, step, undone, label);
}

/// A smart layer is rendered at any positive scale up to sixteen, and at no other.
pub proof fn a_render_has_a_scale_of_up_to_sixteen(scale: Scalar)
    requires
        !scale.nan(),
    ensures
        renders_at(scale) <==> 0 < scale.rank() <= 0x4180_0000,
{
}

/// A smart layer is rendered from the pixels it was made of, at their own extent, and
/// not from what it shows.
pub proof fn a_render_starts_from_the_source(
    s: Session,
    index: int,
    r: SmartRun,
    width: u32,
    height: u32,
    source: Seq<u8>,
)
    requires
        s.renders(index, r),
        s.layers->0.stack.list()[index].kind matches crate::layers::LayerKind::Smart(m) && m.width
            == width && m.height == height && m.rgba.narrow() == source,
    ensures
        r.width == width,
        r.height == height,
        r.window@ == crate::bridge::widened(source),
        crate::bridge::narrowed(r.window@) == source,
{
    crate::bridge::window_round_trip(source);
}

/// A preview shows the stroke where it will land: without a stack it is what was
/// painted, and with one the composite with what was painted as its active layer.
pub proof fn a_preview_shows_what_was_painted(
    session: Session,
    s: StrokeSession,
    c: Composite,
) -> (px: Pixels)
    requires
        session.previews(s, c),
    ensures
        px.stored() == s.painted(),
        !session.stacked(s.document()) ==> c == Composite::Done(px),
        session.stacked(s.document()) ==> crate::composite::composed(
            session.layers.unwrap().stack,
            Some(px),
            c,
        ),
{
    if session.stacked(s.document()) {
        choose|px: Pixels|
            #![trigger px.stored()]
            px.stored() == s.painted() && px.sample_depth() is U8 && crate::composite::composed(
                session.layers.unwrap().stack,
                Some(px),
                c,
            )
    } else {
        c->Done_0
    }
}

} // verus!
