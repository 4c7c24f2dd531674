//! The layer composite: which layers contribute, when no device is needed, and
//! what the fold dispatches when one is.
//!
//! The fold runs bottom-up over a premultiplied accumulator that starts
//! transparent. A pixel layer is blended over it; an adjustment layer
//! transforms it. A layer's mask and the alpha of its clip base multiply into
//! the coverage of its step.
use crate::adjust::AdjustParams;
use crate::blend::BlendMode;
use crate::coverage::SelectionCoverage;
use crate::errors::{unsupported, IngestError};
use crate::layers::{alpha_of, effective_coverage, Layer, LayerKind, LayerStack};
use crate::pixels::Pixels;
use crate::scalar::Scalar;
use std::sync::Arc;
use vstd::prelude::*;

verus! {

/// The pixels layer `i` enters the composite with: a stroke in flight replaces
/// the active layer's.
pub open spec fn plate_pixels(stack: LayerStack, over: Option<Pixels>, i: int) -> Pixels {
    match over {
        Some(px) if i == stack.current() => px,
        _ => stack.list()[i].rgba,
    }
}

/// Whether layer `i` contributes: it is on, and where it has pixels of its own
/// they are not fully transparent.
pub open spec fn contributes(stack: LayerStack, over: Option<Pixels>, i: int) -> bool {
    let l = stack.list()[i];
    l.on() && !(l.pixel_layer() && crate::layers::blank(plate_pixels(stack, over, i)))
}

/// The contributing layers among the lowest `n`, bottom first.
pub open spec fn plates_below(stack: LayerStack, over: Option<Pixels>, n: nat) -> Seq<int>
    decreases n,
{
    if n == 0 {
        Seq::empty()
    } else {
        let rest = plates_below(stack, over, (n - 1) as nat);
        if contributes(stack, over, n - 1) {
            rest.push(n - 1)
        } else {
            rest
        }
    }
}

/// The contributing layers, bottom first.
pub open spec fn plates(stack: LayerStack, over: Option<Pixels>) -> Seq<int> {
    plates_below(stack, over, stack.list().len())
}

/// The clip base above the first `n` plates: the alpha of the last unclipped
/// pixel plate among them.
pub open spec fn clip_base(
    stack: LayerStack,
    over: Option<Pixels>,
    plates: Seq<int>,
    n: nat,
) -> Option<Seq<u8>>
    decreases n,
{
    if n == 0 {
        None
    } else {
        let l = stack.list()[plates[n - 1]];
        if !l.clipped && l.pixel_layer() {
            Some(crate::layers::alphas(plate_pixels(stack, over, plates[n - 1]).narrow()))
        } else {
            clip_base(stack, over, plates, (n - 1) as nat)
        }
    }
}

/// The coverage plate number `k` is composited under: its mask, and its clip
/// base where it is clipped.
pub open spec fn step_coverage(
    stack: LayerStack,
    over: Option<Pixels>,
    plates: Seq<int>,
    k: int,
) -> Option<Seq<u8>> {
    let l = stack.list()[plates[k]];
    crate::layers::combined(
        crate::layers::cells_of(l.applied_mask()),
        if l.clipped {
            clip_base(stack, over, plates, k as nat)
        } else {
            None
        },
    )
}

/// Whether plate number `k` is left out of the fold: it is clipped and there is
/// nothing to clip to.
pub open spec fn unclippable(
    stack: LayerStack,
    over: Option<Pixels>,
    plates: Seq<int>,
    k: int,
) -> bool {
    stack.list()[plates[k]].clipped && clip_base(stack, over, plates, k as nat) is None
}

/// What a step of the fold does to the backdrop.
#[derive(Debug)]
pub enum FoldWork {
    /// Blend the layer's pixels over it.
    Blend { pixels: Pixels, blend: BlendMode, opacity: Scalar },
    /// Run an adjustment chain over it.
    Adjust { params: AdjustParams },
}

/// One step of the fold.
#[derive(Debug)]
pub struct FoldStep {
    /// The layer's index in the stack.
    pub layer: usize,
    pub work: FoldWork,
    /// The coverage the step runs under; `None` is everywhere.
    pub coverage: Option<Arc<SelectionCoverage>>,
}

/// A fold step without its allocation.
pub struct StepView {
    pub layer: int,
    pub work: FoldWork,
    pub coverage: Option<Seq<u8>>,
}

impl View for FoldStep {
    type V = StepView;

    open spec fn view(&self) -> StepView {
        StepView {
            layer: self.layer as int,
            work: self.work,
            coverage: crate::layers::cells_of(self.coverage),
        }
    }
}

/// What layer `i` does to the backdrop.
pub open spec fn work_of(stack: LayerStack, over: Option<Pixels>, i: int) -> FoldWork {
    let l = stack.list()[i];
    match l.kind {
        LayerKind::Adjustment(p) => FoldWork::Adjust { params: *p },
        _ => FoldWork::Blend {
            pixels: plate_pixels(stack, over, i),
            blend: l.blend,
            opacity: l.opacity,
        },
    }
}

/// The step of plate number `k`.
pub open spec fn step_of(
    stack: LayerStack,
    over: Option<Pixels>,
    plates: Seq<int>,
    k: int,
) -> StepView {
    StepView {
        layer: plates[k],
        work: work_of(stack, over, plates[k]),
        coverage: step_coverage(stack, over, plates, k),
    }
}

/// The steps of the first `n` plates.
pub open spec fn fold_steps(
    stack: LayerStack,
    over: Option<Pixels>,
    plates: Seq<int>,
    n: nat,
) -> Seq<StepView>
    decreases n,
{
    if n == 0 {
        Seq::empty()
    } else {
        let rest = fold_steps(stack, over, plates, (n - 1) as nat);
        if unclippable(stack, over, plates, n - 1) {
            rest
        } else {
            rest.push(step_of(stack, over, plates, n - 1))
        }
    }
}

/// How a composite is made.
#[derive(Debug)]
pub enum Composite {
    /// The composite is already known: these pixels.
    Done(Pixels),
    /// The device folds these steps.
    Fold(Vec<FoldStep>),
}

/// Whether the composite is known without a device: nothing contributes, or a
/// single unmodified layer does.
pub open spec fn trivial(stack: LayerStack, over: Option<Pixels>) -> bool {
    let p = plates(stack, over);
    p.len() == 0 || (p.len() == 1 && stack.list()[p[0]].unmodified())
}

/// Whether a plan composites the stack: a stack to which nothing contributes is
/// a transparent canvas, and so is a single unmodified layer that is clipped, for
/// it has nothing to clip to; a single plain layer is its own pixels; anything
/// else is the fold of its plates, each step under a coverage of the canvas
/// extent.
pub open spec fn composed(stack: LayerStack, over: Option<Pixels>, c: Composite) -> bool {
    let p = plates(stack, over);
    match c {
        Composite::Done(px) => {
            &&& trivial(stack, over)
            &&& if p.len() == 0 || stack.list()[p[0]].clipped {
                px.stored() == crate::layers::zeros(stack.canvas() as nat) && px.sample_depth()
                    is U8
            } else {
                px == plate_pixels(stack, over, p[0])
            }
        },
        Composite::Fold(steps) => {
            &&& !trivial(stack, over)
            &&& steps@.map_values(|s: FoldStep| s@) == fold_steps(stack, over, p, p.len())
            &&& forall|k: int|
                0 <= k < steps@.len() ==> (#[trigger] steps@[k]).layer < stack.list().len()
            &&& forall|k: int|
                0 <= k < steps@.len() ==> ((#[trigger] steps@[k]).coverage matches Some(c)
                    ==> c.columns() == stack.columns() && c.rows() == stack.rows())
        },
    }
}

/// The refusal when a fold has no device.
pub open spec fn needs_device() -> Seq<char> {
    "compositing layers is GPU-only — call init_gpu first (the blend is a registered WGSL kernel dispatch; no CPU blend path ships)"@
}

/// Every plate is a layer of the stack, and the plates rise.
pub proof fn plates_are_layers(stack: LayerStack, over: Option<Pixels>, n: nat)
    requires
        n <= stack.list().len(),
    ensures
        plates_below(stack, over, n).len() <= n,
        forall|k: int|
            0 <= k < plates_below(stack, over, n).len() ==> 0 <= #[trigger] plates_below(
                stack,
                over,
                n,
            )[k] < n && contributes(stack, over, plates_below(stack, over, n)[k]),
    decreases n,
{
    if n > 0 {
        plates_are_layers(stack, over, (n - 1) as nat);
    }
}

impl LayerStack {
    /// The contributing layers, bottom first. Hidden, zero-opacity and fully
    /// transparent pixel layers drop out: each is the identity in the fold. An
    /// adjustment layer has no pixels and is never dropped for that.
    pub fn plates(&self, over: Option<&Pixels>) -> (out: Vec<usize>)
        requires
            self.wf(),
        ensures
            out@.map_values(|i: usize| i as int) == plates(
                *self,
                match over {
                    Some(px) => Some(*px),
                    None => None,
                },
            ),
            forall|k: int| 0 <= k < out@.len() ==> (#[trigger] out@[k]) < self.list().len(),
    {
        let ghost o = match over {
            Some(px) => Some(*px),
            None => None,
        };
        let layers: &[Layer] = self.layers();
        let active: usize = self.active_index();
        let mut out: Vec<usize> = Vec::new();
        let mut i: usize = 0;
        while i < layers.len()
            invariant
                layers@ == self.list(),
                active == self.current(),
                o == (match over {
                    Some(px) => Some(*px),
                    None => None,
                }),
                i <= layers@.len(),
                out@.map_values(|i: usize| i as int) == plates_below(*self, o, i as nat),
                forall|k: int| 0 <= k < out@.len() ==> (#[trigger] out@[k]) < i,
            decreases layers@.len() - i,
        {
            let l: &Layer = &layers[i];
            let keep: bool = if !l.enabled() {
                false
            } else {
                let px: &Pixels = match over {
                    Some(p) => if i == active {
                        p
                    } else {
                        &l.rgba
                    },
                    None => &l.rgba,
                };
                !(l.is_pixels() && crate::layers::is_blank(px))
            };
            let ghost before = out@;
            if keep {
                out.push(i);
            }
            i = i + 1;
            proof {
                assert(keep == contributes(*self, o, i - 1));
                assert(out@.map_values(|i: usize| i as int) =~= (if keep {
                    before.map_values(|i: usize| i as int).push(i - 1)
                } else {
                    before.map_values(|i: usize| i as int)
                }));
            }
        }
        out
    }

    /// Can the composite run without a device?
    pub fn composite_is_trivial(&self) -> (yes: bool)
        requires
            self.wf(),
        ensures
            yes <==> trivial(*self, None),
    {
        let p: Vec<usize> = self.plates(None);
        proof {
            let v = p@.map_values(|i: usize| i as int);
            assert(v.len() == p@.len());
            if p@.len() > 0 {
                assert(v[0] == p@[0]);
            }
        }
        if p.len() == 0 {
            true
        } else if p.len() == 1 {
            self.layers()[p[0]].is_unmodified()
        } else {
            false
        }
    }

    /// Plan the composite of the stack.
    ///
    /// A stack to which nothing contributes is a transparent canvas, and a single
    /// plain layer is its own composite, handed back as the very same
    /// pixels; both need no device. Anything else is a fold, which needs one.
    pub fn composite(&self, device: bool, over: Option<&Pixels>) -> (plan: Result<
        Composite,
        IngestError,
    >)
        requires
            self.wf(),
            over matches Some(px) ==> px.covers(self.columns(), self.rows()),
        ensures
            ({
                let o = match over {
                    Some(px) => Some(*px),
                    None => None,
                };
                &&& plan is Err <==> !trivial(*self, o) && !device
                &&& plan matches Err(e) ==> e.is_unsupported(needs_device())
                &&& plan matches Ok(c) ==> composed(*self, o, c)
            }),
    {
        let ghost o = match over {
            Some(px) => Some(*px),
            None => None,
        };
        let p: Vec<usize> = self.plates(over);
        let ghost v = p@.map_values(|i: usize| i as int);
        proof {
            assert(v == plates(*self, o));
            assert(v.len() == p@.len());
        }
        let layers: &[Layer] = self.layers();
        let active: usize = self.active_index();
        if p.len() == 0 {
            return Ok(Composite::Done(self.blank_canvas()));
        }
        proof {
            assert(v[0] == p@[0]);
        }
        if p.len() == 1 && layers[p[0]].is_unmodified() {
            let i: usize = p[0];
            if layers[i].clipped {
                return Ok(Composite::Done(self.blank_canvas()));
            }
            let px: Pixels = match over {
                Some(o) => if i == active {
                    o.clone()
                } else {
                    layers[i].rgba.clone()
                },
                None => layers[i].rgba.clone(),
            };
            return Ok(Composite::Done(px));
        }
        if !device {
            return Err(
                unsupported(
                    "compositing layers is GPU-only — call init_gpu first (the blend is a registered WGSL kernel dispatch; no CPU blend path ships)",
                ),
            );
        }
        let (w, h): (u32, u32) = (self.width(), self.height());
        let mut steps: Vec<FoldStep> = Vec::new();
        let mut base: Option<Vec<u8>> = None;
        let mut k: usize = 0;
        proof {
            assert(steps@.map_values(|s: FoldStep| s@) =~= Seq::<StepView>::empty());
        }
        while k < p.len()
            invariant
                self.wf(),
                over matches Some(px) ==> px.covers(self.columns(), self.rows()),
                o == (match over {
                    Some(px) => Some(*px),
                    None => None,
                }),
                layers@ == self.list(),
                active == self.current(),
                w == self.columns(),
                h == self.rows(),
                v == p@.map_values(|i: usize| i as int),
                v == plates(*self, o),
                k <= p@.len(),
                forall|j: int| 0 <= j < p@.len() ==> (#[trigger] p@[j]) < self.list().len(),
                match base {
                    Some(b) => clip_base(*self, o, v, k as nat) == Some(b@) && b@.len() == w * h,
                    None => clip_base(*self, o, v, k as nat) is None,
                },
                steps@.map_values(|s: FoldStep| s@) == fold_steps(*self, o, v, k as nat),
                forall|j: int|
                    0 <= j < steps@.len() ==> (#[trigger] steps@[j]).layer < self.list().len(),
                forall|j: int|
                    0 <= j < steps@.len() ==> ((#[trigger] steps@[j]).coverage matches Some(c)
                        ==> c.columns() == w && c.rows() == h),
            decreases p@.len() - k,
        {
            let i: usize = p[k];
            let l: &Layer = &layers[i];
            proof {
                assert(v[k as int] == i);
                assert(self.list()[i as int].fits(w, h));
            }
            let skip: bool = l.clipped && base.is_none();
            let ghost steps_before = steps@;
            if !skip {
                let clip: Option<&Vec<u8>> = if l.clipped {
                    base.as_ref()
                } else {
                    None
                };
                let coverage: Option<Arc<SelectionCoverage>> = effective_coverage(
                    l.live_mask(),
                    clip,
                    w,
                    h,
                );
                let work: FoldWork = match l.adjust_params() {
                    Some(p) => FoldWork::Adjust { params: *p },
                    None => {
                        let px: &Pixels = match over {
                            Some(o) => if i == active {
                                o
                            } else {
                                &l.rgba
                            },
                            None => &l.rgba,
                        };
                        FoldWork::Blend { pixels: px.clone(), blend: l.blend, opacity: l.opacity }
                    },
                };
                steps.push(FoldStep { layer: i, work, coverage });
            }
            proof {
                assert(steps@.map_values(|s: FoldStep| s@) =~= (if skip {
                    steps_before.map_values(|s: FoldStep| s@)
                } else {
                    steps_before.map_values(|s: FoldStep| s@).push(
                        step_of(*self, o, v, k as int),
                    )
                }));
            }
            if !l.clipped && l.is_pixels() {
                let px: &Pixels = match over {
                    Some(o) => if i == active {
                        o
                    } else {
                        &l.rgba
                    },
                    None => &l.rgba,
                };
                proof {
                    crate::ingest::narrow_is_sized(*px, w, h);
                }
                let view = px.to_rgba8();
                base = Some(alpha_of(view.as_slice()));
            }
            k = k + 1;
        }
        Ok(Composite::Fold(steps))
    }
}

/// A clipped layer with no base beneath it contributes nothing.
pub proof fn a_baseless_clip_is_left_out(
    stack: LayerStack,
    over: Option<Pixels>,
    plates: Seq<int>,
    n: nat,
)
    requires
        0 < n <= plates.len(),
        stack.list()[plates[n - 1]].clipped,
        clip_base(stack, over, plates, (n - 1) as nat) is None,
    ensures
        fold_steps(stack, over, plates, n) == fold_steps(stack, over, plates, (n - 1) as nat),
{
}

proof fn lemma_no_base(stack: LayerStack, over: Option<Pixels>, plates: Seq<int>, n: nat)
    requires
        n <= plates.len(),
        forall|k: int| 0 <= k < plates.len() ==> stack.list()[#[trigger] plates[k]].clipped,
    ensures
        clip_base(stack, over, plates, n) is None,
        fold_steps(stack, over, plates, n).len() == 0,
    decreases n,
{
    if n > 0 {
        lemma_no_base(stack, over, plates, (n - 1) as nat);
        assert(stack.list()[plates[n - 1]].clipped);
    }
}

/// Where everything that contributes is clipped, there is nothing to clip to:
/// the composite is a transparent canvas, or the fold of no step at all.
pub proof fn clips_alone_show_nothing(stack: LayerStack, over: Option<Pixels>, c: Composite)
    requires
        composed(stack, over, c),
        forall|k: int|
            0 <= k < plates(stack, over).len() ==> stack.list()[#[trigger] plates(
                stack,
                over,
            )[k]].clipped,
    ensures
        match c {
            Composite::Done(px) => px.sample_depth() is U8 && px.stored() == crate::layers::zeros(
                stack.canvas() as nat,
            ),
            Composite::Fold(steps) => steps@.len() == 0,
        },
{
    let p = plates(stack, over);
    lemma_no_base(stack, over, p, p.len());
    if let Composite::Fold(steps) = c {
        assert(steps@.map_values(|s: FoldStep| s@).len() == steps@.len());
    }
}

/// Hiding a layer, or taking its opacity to zero, leaves it out of the plates.
pub proof fn a_hidden_layer_is_no_plate(stack: LayerStack, over: Option<Pixels>, i: int, n: nat)
    requires
        0 <= i < n <= stack.list().len(),
        !stack.list()[i].on(),
    ensures
        !plates_below(stack, over, n).contains(i),
    decreases n,
{
    plates_are_layers(stack, over, n);
    if plates_below(stack, over, n).contains(i) {
        let k = choose|k: int|
            0 <= k < plates_below(stack, over, n).len() && plates_below(stack, over, n)[k] == i;
        assert(contributes(stack, over, plates_below(stack, over, n)[k]));
    }
}

/// An adjustment layer that is on is always a plate, though its placeholder
/// pixels are transparent.
pub proof fn an_adjustment_survives_the_transparency_skip(
    stack: LayerStack,
    over: Option<Pixels>,
    i: int,
    n: nat,
)
    requires
        0 <= i < n <= stack.list().len(),
        stack.list()[i].kind is Adjustment,
        stack.list()[i].on(),
    ensures
        plates_below(stack, over, n).contains(i),
    decreases n,
{
    let rest = plates_below(stack, over, (n - 1) as nat);
    if i == n - 1 {
        let all = plates_below(stack, over, n);
        assert(all[all.len() - 1] == i);
    } else {
        an_adjustment_survives_the_transparency_skip(stack, over, i, (n - 1) as nat);
        let k = choose|k: int| 0 <= k < rest.len() && rest[k] == i;
        assert(plates_below(stack, over, n)[k] == i);
    }
}

proof fn lemma_same_plates(a: LayerStack, b: LayerStack, n: nat)
    requires
        a.list() == b.list(),
    ensures
        plates_below(a, None, n) == plates_below(b, None, n),
    decreases n,
{
    if n > 0 {
        lemma_same_plates(a, b, (n - 1) as nat);
    }
}

proof fn lemma_same_base(a: LayerStack, b: LayerStack, plates: Seq<int>, n: nat)
    requires
        a.list() == b.list(),
    ensures
        clip_base(a, None, plates, n) == clip_base(b, None, plates, n),
    decreases n,
{
    if n > 0 {
        lemma_same_base(a, b, plates, (n - 1) as nat);
    }
}

proof fn lemma_same_steps(a: LayerStack, b: LayerStack, plates: Seq<int>, n: nat)
    requires
        a.list() == b.list(),
    ensures
        fold_steps(a, None, plates, n) == fold_steps(b, None, plates, n),
    decreases n,
{
    if n > 0 {
        lemma_same_steps(a, b, plates, (n - 1) as nat);
        lemma_same_base(a, b, plates, (n - 1) as nat);
    }
}

/// Stacks with the same extent and the same layers composite alike, whichever
/// layer is active.
pub proof fn the_composite_follows_the_layers(a: LayerStack, b: LayerStack, c: Composite)
    requires
        a.list() == b.list(),
        a.columns() == b.columns(),
        a.rows() == b.rows(),
    ensures
        composed(a, None, c) <==> composed(b, None, c),
{
    let p = plates(a, None);
    lemma_same_plates(a, b, a.list().len());
    lemma_same_steps(a, b, p, p.len());
}

/// Adjustments are non-destructive: once an added layer is removed again, the
/// stack composites exactly as it did before.
pub proof fn removing_an_added_layer_restores_the_composite(
    before: LayerStack,
    layer: Layer,
    at: int,
    removed: LayerStack,
    c: Composite,
)
    requires
        0 <= at <= before.list().len(),
        removed.list() == before.list().insert(at, layer).remove(at),
        removed.columns() == before.columns(),
        removed.rows() == before.rows(),
    ensures
        composed(removed, None, c) <==> composed(before, None, c),
{
    crate::layers::removing_an_added_layer_restores(before.list(), at, layer);
    the_composite_follows_the_layers(removed, before, c);
}

/// A layer shows exactly where it is visible, its opacity is above zero, and it is
/// an adjustment or has a pixel that is not fully transparent.
pub proof fn a_layer_shows_where_it_is_on_and_inked(
    stack: LayerStack,
    over: Option<Pixels>,
    i: int,
    n: nat,
    px: Pixels,
)
    requires
        n <= stack.list().len(),
        0 <= i < n,
        px == (match over {
            Some(p) if i == stack.current() => p,
            _ => stack.list()[i].rgba,
        }),
    ensures
        ({
            let l = stack.list()[i];
            plates_below(stack, over, n).contains(i) <==> {
                &&& l.visible
                &&& !l.opacity.nan() && l.opacity.rank() > 0
                &&& {
                    ||| l.kind is Adjustment
                    ||| !(px.sample_depth() is U16) && exists|q: int|
                        0 <= q < px.stored().len() / 4 && #[trigger] px.stored()[4 * q + 3] != 0
                    ||| px.sample_depth() is U16 && exists|q: int|
                        0 <= q < px.stored().len() / 8 && (#[trigger] px.stored()[8 * q + 6] != 0
                            || px.stored()[8 * q + 7] != 0)
                }
            }
        }),
{
    lemma_plates(stack, over, n);
}

proof fn lemma_plates(stack: LayerStack, over: Option<Pixels>, n: nat)
    requires
        n <= stack.list().len(),
    ensures
        forall|i: int|
            0 <= i < n ==> (#[trigger] plates_below(stack, over, n).contains(i) <==> contributes(
                stack,
                over,
                i,
            )),
        forall|a: int, b: int|
            0 <= a < b < plates_below(stack, over, n).len() ==> #[trigger] plates_below(
                stack,
                over,
                n,
            )[a] < #[trigger] plates_below(stack, over, n)[b],
    decreases n,
{
    plates_are_layers(stack, over, n);
    if n > 0 {
        lemma_plates(stack, over, (n - 1) as nat);
        plates_are_layers(stack, over, (n - 1) as nat);
        let rest = plates_below(stack, over, (n - 1) as nat);
        let all = plates_below(stack, over, n);
        assert forall|i: int| 0 <= i < n implies (#[trigger] all.contains(i) <==> contributes(
            stack,
            over,
            i,
        )) by {
            if i < n - 1 {
                assert(rest.contains(i) <==> contributes(stack, over, i));
                if rest.contains(i) {
                    assert(all[rest.index_of(i)] == i);
                }
            } else if contributes(stack, over, i) {
                assert(all[all.len() - 1] == i);
            }
            if all.contains(i) {
                let k = all.index_of(i);
                assert(contributes(stack, over, all[k]));
            }
        }
        assert forall|a: int, b: int| 0 <= a < b < all.len() implies #[trigger] all[a]
            < #[trigger] all[b] by {
            assert(all[a] == rest[a]);
            if b < rest.len() {
                assert(all[b] == rest[b]);
            }
        }
    }
}

/// The clip base carries up: where plate `j` is an unclipped pixel layer and every
/// plate from there to plate `k` is clipped or an adjustment, the base of plate `k`
/// is the alpha of plate `j`, however many lie between.
pub proof fn a_clip_base_carries_up(
    stack: LayerStack,
    over: Option<Pixels>,
    plates: Seq<int>,
    j: int,
    k: nat,
    px: Pixels,
)
    requires
        0 <= j < k <= plates.len(),
        px == (match over {
            Some(p) if plates[j] == stack.current() => p,
            _ => stack.list()[plates[j]].rgba,
        }),
        !stack.list()[plates[j]].clipped,
        !(stack.list()[plates[j]].kind is Adjustment),
        forall|m: int|
            j < m < k ==> stack.list()[#[trigger] plates[m]].clipped || stack.list()[plates[m]].kind
                is Adjustment,
    ensures
        clip_base(stack, over, plates, k) matches Some(b) && b.len() == px.narrow().len() / 4 && forall|
            q: int,
        |
            0 <= q < b.len() ==> #[trigger] b[q] == px.narrow()[4 * q + 3],
    decreases k,
{
    if j < k - 1 {
        assert(stack.list()[plates[k - 1]].clipped || stack.list()[plates[k - 1]].kind
            is Adjustment);
        a_clip_base_carries_up(stack, over, plates, j, (k - 1) as nat, px);
    }
}

proof fn lemma_has_base(
    stack: LayerStack,
    over: Option<Pixels>,
    plates: Seq<int>,
    j: int,
    k: nat,
)
    requires
        0 <= j < k <= plates.len(),
        !stack.list()[plates[j]].clipped,
        !(stack.list()[plates[j]].kind is Adjustment),
    ensures
        clip_base(stack, over, plates, k) is Some,
    decreases k,
{
    if j < k - 1 {
        lemma_has_base(stack, over, plates, j, (k - 1) as nat);
    }
}

proof fn lemma_fold(stack: LayerStack, over: Option<Pixels>, plates: Seq<int>, n: nat)
    requires
        n <= plates.len(),
        forall|a: int, b: int| 0 <= a < b < plates.len() ==> #[trigger] plates[a] < #[trigger] plates[b],
    ensures
        ({
            let steps = fold_steps(stack, over, plates, n);
            &&& forall|k: int|
                #![trigger plates[k]]
                0 <= k < n && !unclippable(stack, over, plates, k) ==> steps.contains(
                    step_of(stack, over, plates, k),
                )
            &&& forall|m: int|
                0 <= m < steps.len() ==> exists|k: int|
                    0 <= k < n && !unclippable(stack, over, plates, k) && #[trigger] steps[m]
                        == #[trigger] step_of(stack, over, plates, k)
            &&& forall|a: int, b: int|
                0 <= a < b < steps.len() ==> (#[trigger] steps[a]).layer < (
                #[trigger] steps[b]).layer
        }),
    decreases n,
{
    if n > 0 {
        lemma_fold(stack, over, plates, (n - 1) as nat);
        let rest = fold_steps(stack, over, plates, (n - 1) as nat);
        let steps = fold_steps(stack, over, plates, n);
        let last = step_of(stack, over, plates, n - 1);
        assert forall|k: int|
            #![trigger plates[k]]
            0 <= k < n && !unclippable(stack, over, plates, k) implies steps.contains(
            step_of(stack, over, plates, k),
        ) by {
            if k < n - 1 {
                let s = step_of(stack, over, plates, k);
                assert(plates[k] == plates[k]);
                assert(rest.contains(s));
                assert(steps[rest.index_of(s)] == s);
            } else {
                assert(steps[steps.len() - 1] == last);
            }
        }
        assert forall|m: int| 0 <= m < steps.len() implies exists|k: int|
            0 <= k < n && !unclippable(stack, over, plates, k) && #[trigger] steps[m]
                == #[trigger] step_of(stack, over, plates, k) by {
            if m < rest.len() {
                assert(steps[m] == rest[m]);
                let k = choose|k: int|
                    0 <= k < n - 1 && !unclippable(stack, over, plates, k) && #[trigger] rest[m]
                        == #[trigger] step_of(stack, over, plates, k);
                assert(steps[m] == step_of(stack, over, plates, k));
            } else {
                assert(steps[m] == step_of(stack, over, plates, n - 1));
            }
        }
        assert forall|a: int, b: int| 0 <= a < b < steps.len() implies (#[trigger] steps[a]).layer
            < (#[trigger] steps[b]).layer by {
            assert(steps[a] == rest[a]);
            if b < rest.len() {
                assert(steps[b] == rest[b]);
            } else {
                let k = choose|k: int|
                    0 <= k < n - 1 && !unclippable(stack, over, plates, k) && #[trigger] rest[a]
                        == #[trigger] step_of(stack, over, plates, k);
                assert(plates[k] < plates[n - 1]);
            }
        }
    }
}

/// A fold runs bottom-up over what shows: its steps rise through the stack, each of
/// them is a layer that shows, and a layer that shows has a step unless it is
/// clipped with no unclipped pixel layer that shows beneath it. A pixel layer is
/// blended with its own blend and opacity, an adjustment runs its own parameters.
pub proof fn a_fold_runs_over_what_shows(
    stack: LayerStack,
    over: Option<Pixels>,
    steps: Vec<FoldStep>,
)
    requires
        composed(stack, over, Composite::Fold(steps)),
    ensures
        forall|a: int, b: int|
            0 <= a < b < steps@.len() ==> (#[trigger] steps@[a]).layer < (
            #[trigger] steps@[b]).layer,
        forall|a: int|
            0 <= a < steps@.len() ==> contributes(
                stack,
                over,
                (#[trigger] steps@[a]).layer as int,
            ),
        forall|i: int|
            0 <= i < stack.list().len() && #[trigger] contributes(stack, over, i) && (
            !stack.list()[i].clipped || exists|j: int|
                0 <= j < i && #[trigger] contributes(stack, over, j) && !stack.list()[j].clipped
                    && !(stack.list()[j].kind is Adjustment)) ==> exists|a: int|
                0 <= a < steps@.len() && (#[trigger] steps@[a]).layer == i,
        forall|a: int|
            0 <= a < steps@.len() ==> ({
                let l = stack.list()[(#[trigger] steps@[a]).layer as int];
                match steps@[a].work {
                    FoldWork::Adjust { params } => l.kind matches LayerKind::Adjustment(p) && params
                        == *p,
                    FoldWork::Blend { pixels, blend, opacity } => {
                        &&& !(l.kind is Adjustment)
                        &&& blend == l.blend
                        &&& opacity == l.opacity
                        &&& pixels == (match over {
                            Some(p) if steps@[a].layer == stack.current() => p,
                            _ => l.rgba,
                        })
                    },
                }
            }),
{
    let p = plates(stack, over);
    let n = stack.list().len();
    lemma_plates(stack, over, n);
    plates_are_layers(stack, over, n);
    lemma_fold(stack, over, p, p.len());
    let views = steps@.map_values(|s: FoldStep| s@);
    let fold = fold_steps(stack, over, p, p.len());
    assert(views == fold);
    assert forall|a: int| 0 <= a < steps@.len() implies ({
        &&& #[trigger] steps@[a]@ == fold[a]
        &&& contributes(stack, over, steps@[a].layer as int)
        &&& fold[a].work == work_of(stack, over, fold[a].layer)
    }) by {
        assert(views[a] == steps@[a]@);
        let k = choose|k: int|
            0 <= k < p.len() && !unclippable(stack, over, p, k) && #[trigger] fold[a]
                == #[trigger] step_of(stack, over, p, k);
        assert(contributes(stack, over, p[k]));
    }
    assert forall|a: int, b: int| 0 <= a < b < steps@.len() implies (#[trigger] steps@[a]).layer < (
    #[trigger] steps@[b]).layer by {
        assert(steps@[a]@ == fold[a] && steps@[b]@ == fold[b]);
        assert(fold[a].layer < fold[b].layer);
    }
    assert forall|a: int| 0 <= a < steps@.len() implies contributes(
        stack,
        over,
        (#[trigger] steps@[a]).layer as int,
    ) by {
        assert(steps@[a]@ == fold[a]);
    }
    assert forall|i: int|
        0 <= i < stack.list().len() && #[trigger] contributes(stack, over, i) && (
        !stack.list()[i].clipped || exists|j: int|
            0 <= j < i && #[trigger] contributes(stack, over, j) && !stack.list()[j].clipped && !(
            stack.list()[j].kind is Adjustment)) implies exists|a: int|
        0 <= a < steps@.len() && (#[trigger] steps@[a]).layer == i by {
        assert(p.contains(i));
        let k = p.index_of(i);
        assert(!unclippable(stack, over, p, k)) by {
            if stack.list()[i].clipped {
                let j = choose|j: int|
                    0 <= j < i && #[trigger] contributes(stack, over, j)
                        && !stack.list()[j].clipped && !(stack.list()[j].kind is Adjustment);
                assert(p.contains(j));
                let m = p.index_of(j);
                if k < m {
                    assert(p[k] < p[m]);
                }
                assert(m < k);
                lemma_has_base(stack, over, p, m, k as nat);
            }
        }
        assert(p[k] == i);
        let s = step_of(stack, over, p, k);
        assert(fold.contains(s));
        let a = fold.index_of(s);
        assert(steps@[a]@ == fold[a]);
        assert(steps@[a].layer == i);
    }
    assert forall|a: int| 0 <= a < steps@.len() implies ({
        let l = stack.list()[(#[trigger] steps@[a]).layer as int];
        match steps@[a].work {
            FoldWork::Adjust { params } => l.kind matches LayerKind::Adjustment(p) && params == *p,
            FoldWork::Blend { pixels, blend, opacity } => {
                &&& !(l.kind is Adjustment)
                &&& blend == l.blend
                &&& opacity == l.opacity
                &&& pixels == (match over {
                    Some(p) if steps@[a].layer == stack.current() => p,
                    _ => l.rgba,
                })
            },
        }
    }) by {
        assert(steps@[a]@ == fold[a]);
        assert(steps@[a].work == fold[a].work);
    }
}

/// The place of a step among the plates, and the base that it is clipped to.
proof fn lemma_step_base(
    stack: LayerStack,
    over: Option<Pixels>,
    steps: Vec<FoldStep>,
    a: int,
    j: int,
    px: Pixels,
) -> (base: Seq<u8>)
    requires
        composed(stack, over, Composite::Fold(steps)),
        0 <= a < steps@.len(),
        px == (match over {
            Some(p) if j == stack.current() => p,
            _ => stack.list()[j].rgba,
        }),
        stack.list()[steps@[a].layer as int].clipped,
        0 <= j < steps@[a].layer,
        contributes(stack, over, j),
        !stack.list()[j].clipped,
        !(stack.list()[j].kind is Adjustment),
        forall|m: int|
            j < m < steps@[a].layer && #[trigger] contributes(stack, over, m)
                ==> stack.list()[m].clipped || stack.list()[m].kind is Adjustment,
    ensures
        base.len() == px.narrow().len() / 4,
        forall|q: int| 0 <= q < base.len() ==> #[trigger] base[q] == px.narrow()[4 * q + 3],
        crate::layers::cells_of(steps@[a].coverage) == crate::layers::combined(
            crate::layers::cells_of(stack.list()[steps@[a].layer as int].applied_mask()),
            Some(base),
        ),
{
    let p = plates(stack, over);
    let n = stack.list().len();
    let i = steps@[a].layer as int;
    lemma_plates(stack, over, n);
    plates_are_layers(stack, over, n);
    lemma_fold(stack, over, p, p.len());
    let views = steps@.map_values(|s: FoldStep| s@);
    let fold = fold_steps(stack, over, p, p.len());
    assert(views == fold);
    assert(views[a] == steps@[a]@);
    let k = choose|k: int|
        0 <= k < p.len() && !unclippable(stack, over, p, k) && #[trigger] fold[a]
            == #[trigger] step_of(stack, over, p, k);
    assert(p[k] == i);
    assert(p.contains(j));
    let m = p.index_of(j);
    if k < m {
        assert(p[k] < p[m]);
    }
    assert forall|t: int| m < t < k implies stack.list()[#[trigger] p[t]].clipped
        || stack.list()[p[t]].kind is Adjustment by {
        assert(p[m] < p[t] && p[t] < p[k]);
        assert(contributes(stack, over, p[t]));
    }
    a_clip_base_carries_up(stack, over, p, m, k as nat, px);
    clip_base(stack, over, p, k as nat)->0
}

/// A step runs under its mask and its clip base: where layer `j` is the nearest
/// unclipped pixel layer that shows beneath a clipped layer, each pixel is covered
/// by the mask times the alpha of layer `j`. A mask that is off, or full, is 255.
pub proof fn a_clipped_step_is_confined_by_its_base(
    stack: LayerStack,
    over: Option<Pixels>,
    steps: Vec<FoldStep>,
    a: int,
    j: int,
    px: Pixels,
    q: int,
)
    requires
        composed(stack, over, Composite::Fold(steps)),
        0 <= a < steps@.len(),
        px == (match over {
            Some(p) if j == stack.current() => p,
            _ => stack.list()[j].rgba,
        }),
        ({
            let i = steps@[a].layer as int;
            &&& stack.list()[i].clipped
            &&& 0 <= j < i
            &&& contributes(stack, over, j)
            &&& !stack.list()[j].clipped
            &&& !(stack.list()[j].kind is Adjustment)
            &&& forall|m: int|
                j < m < i && #[trigger] contributes(stack, over, m) ==> stack.list()[m].clipped
                    || stack.list()[m].kind is Adjustment
            &&& px.narrow().len() == stack.columns() * stack.rows() * 4
            &&& stack.list()[i].mask matches Some(m) ==> m.cells().len() == stack.columns()
                * stack.rows()
        }),
        0 <= q < stack.columns() * stack.rows(),
    ensures
        ({
            let l = stack.list()[steps@[a].layer as int];
            let own: int = match l.mask {
                Some(m) if l.mask_enabled => m.cells()[q] as int,
                _ => 255,
            };
            steps@[a].coverage matches Some(c) && c.cells()[q] == (own * px.narrow()[4 * q + 3]
                + 127) / 255
        }),
{
    let base = lemma_step_base(stack, over, steps, a, j, px);
    let l = stack.list()[steps@[a].layer as int];
    let own = match crate::layers::cells_of(l.mask) {
        Some(cells) => cells[q],
        None => 255,
    };
    let alpha = base[q];
    assert(alpha == px.narrow()[4 * q + 3]);
    crate::layers::coverages_confine(own, alpha);
    assert(255 * (alpha as int) == 255u8 * alpha);
    assert((255 * (alpha as int) + 127) / 255 == alpha);
    assert(l.mask matches Some(m) && m.all_one() ==> own == 255);
    let shown: int = if l.mask is Some && l.mask_enabled {
        own as int
    } else {
        255
    };
    let cells = crate::layers::cells_of(steps@[a].coverage);
    assert(cells is Some);
    if l.applied_mask() is None {
        assert(cells->0 == base);
        assert(shown == 255);
        assert(shown * (alpha as int) == 255 * (alpha as int));
    } else {
        assert(cells->0[q] == crate::layers::times(own, alpha));
        assert(shown == own);
        assert(shown * (alpha as int) == own * alpha);
        assert(0 <= own * alpha <= 255 * 255) by (nonlinear_arith)
            requires
                0 <= own <= 255,
                0 <= alpha <= 255,
        ;
    }
    assert(cells->0[q] == (shown * (alpha as int) + 127) / 255);
}

/// An unclipped step runs under its own mask alone; one that is off, or covers
/// everything, leaves it unconfined.
pub proof fn an_unclipped_step_runs_under_its_own_mask(
    stack: LayerStack,
    over: Option<Pixels>,
    steps: Vec<FoldStep>,
    a: int,
)
    requires
        composed(stack, over, Composite::Fold(steps)),
        0 <= a < steps@.len(),
        !stack.list()[steps@[a].layer as int].clipped,
    ensures
        ({
            let l = stack.list()[steps@[a].layer as int];
            match (l.mask, steps@[a].coverage) {
                (Some(m), Some(c)) => l.mask_enabled && c.cells() == m.cells() && !m.all_one(),
                (Some(m), None) => !l.mask_enabled || m.all_one(),
                (None, c) => c is None,
            }
        }),
{
    let p = plates(stack, over);
    lemma_plates(stack, over, stack.list().len());
    lemma_fold(stack, over, p, p.len());
    let views = steps@.map_values(|s: FoldStep| s@);
    let fold = fold_steps(stack, over, p, p.len());
    assert(views == fold);
    assert(views[a] == steps@[a]@);
    let k = choose|k: int|
        0 <= k < p.len() && !unclippable(stack, over, p, k) && #[trigger] fold[a]
            == #[trigger] step_of(stack, over, p, k);
    assert(p[k] == steps@[a].layer);
}

/// A lone layer that nothing modifies is its own composite, byte for byte and
/// without a device: the stroke in flight where it is the active one.
pub proof fn a_lone_plain_layer_is_its_own_composite(
    stack: LayerStack,
    over: Option<Pixels>,
    c: Composite,
    i: int,
)
    requires
        composed(stack, over, c),
        0 <= i < stack.list().len(),
        contributes(stack, over, i),
        forall|m: int| 0 <= m < stack.list().len() && #[trigger] contributes(stack, over, m) ==> m == i,
        !(stack.list()[i].kind is Adjustment),
        !stack.list()[i].clipped,
        stack.list()[i].blend is Normal,
        !stack.list()[i].opacity.nan() && stack.list()[i].opacity.rank() >= 0x3f80_0000,
        stack.list()[i].mask is None || !stack.list()[i].mask_enabled,
    ensures
        c matches Composite::Done(px) && px == (match over {
            Some(p) if i == stack.current() => p,
            _ => stack.list()[i].rgba,
        }),
{
    let p = plates(stack, over);
    let n = stack.list().len();
    lemma_plates(stack, over, n);
    plates_are_layers(stack, over, n);
    assert(p.contains(i));
    if p.len() > 1 {
        assert(contributes(stack, over, p[0]) && contributes(stack, over, p[1]));
        assert(p[0] < p[1]);
    }
    assert(p[0] == i);
}

/// A composite is known without a device only where no arithmetic is due: nothing
/// shows, or one layer does that is fully opaque, blended normally, and confined by
/// no mask. Anything else is folded.
pub proof fn a_composite_is_known_only_where_nothing_is_due(
    stack: LayerStack,
    over: Option<Pixels>,
    px: Pixels,
    i: int,
    j: int,
)
    requires
        composed(stack, over, Composite::Done(px)),
        0 <= i < stack.list().len(),
        contributes(stack, over, i),
        0 <= j < stack.list().len(),
        contributes(stack, over, j),
    ensures
        i == j,
        ({
            let l = stack.list()[i];
            &&& !(l.kind is Adjustment)
            &&& !l.opacity.nan() && l.opacity.rank() >= 0x3f80_0000
            &&& l.blend is Normal
            &&& l.mask is None || !l.mask_enabled || (l.mask matches Some(m) && forall|q: int|
                0 <= q < m.cells().len() ==> #[trigger] m.cells()[q] == 255)
        }),
{
    let p = plates(stack, over);
    lemma_plates(stack, over, stack.list().len());
    assert(p.contains(i) && p.contains(j));
    assert(p.index_of(i) == 0 && p.index_of(j) == 0);
}

} // verus!
