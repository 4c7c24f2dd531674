//! The fold of a stack, one device call at a time.
//!
//! The accumulator is a premultiplied working window that starts transparent.
//! The fold says what the device is to run, takes what came back and says what
//! comes next, until the straight pixels of the composite are left. A cast over
//! a fully opaque window multiplies or divides by one and is skipped.
use crate::adjust::{adjust_rgba8, AdjustParams};
use crate::blend::BlendMode;
use crate::bridge::{f16_to_rgba8, rgba8_to_f16};
use crate::composite::{FoldStep, FoldWork};
use crate::coverage::SelectionCoverage;
use crate::scalar::Scalar;
use std::sync::Arc;
use vstd::prelude::*;

verus! {

/// The binary16 pattern of one.
pub const HALF_ONE: u16 = 0x3c00;

/// Whether every whole pixel of a working window has alpha one.
pub open spec fn opaque(window: Seq<u8>) -> bool {
    forall|p: int|
        0 <= p < window.len() / 8 ==> #[trigger] crate::bridge::pattern_at(window, 4 * p + 3)
            == HALF_ONE
}

/// Is every whole pixel of a working window opaque?
pub fn window_is_opaque(window: &[u8]) -> (yes: bool)
    ensures
        yes <==> opaque(window@),
{
    let len: usize = window.len();
    let n: usize = len / 8;
    let mut i: usize = 0;
    while i < n
        invariant
            len == window@.len(),
            n == len / 8,
            i <= n,
            forall|p: int|
                0 <= p < i ==> #[trigger] crate::bridge::pattern_at(window@, 4 * p + 3)
                    == HALF_ONE,
        decreases n - i,
    {
        let alpha: u16 = window[8 * i + 6] as u16 + 256 * window[8 * i + 7] as u16;
        assert(crate::bridge::pattern_at(window@, 4 * (i as int) + 3) == alpha);
        if alpha != HALF_ONE {
            return false;
        }
        i = i + 1;
    }
    true
}

/// What the device is asked for.
#[derive(Debug)]
pub enum FoldAction {
    /// Associate the alpha of a window.
    Premultiply { window: Vec<u8> },
    /// Dissociate the alpha of a window.
    Unpremultiply { window: Vec<u8> },
    /// Blend a premultiplied window over the backdrop.
    Blend {
        backdrop: Vec<u8>,
        top: Vec<u8>,
        blend: BlendMode,
        opacity: Scalar,
        coverage: Option<Arc<SelectionCoverage>>,
    },
    /// Run the stages of an adjustment over straight RGBA8.
    Adjust { rgba: Vec<u8>, params: AdjustParams, coverage: Option<Arc<SelectionCoverage>> },
    /// Nothing more: this is the composite, as straight RGBA8.
    Finish { rgba: Vec<u8> },
}

/// A request without its allocations.
pub enum Ask {
    Premultiply { window: Seq<u8> },
    Unpremultiply { window: Seq<u8> },
    Blend {
        backdrop: Seq<u8>,
        top: Seq<u8>,
        blend: BlendMode,
        opacity: Scalar,
        coverage: Option<Arc<SelectionCoverage>>,
    },
    Adjust { rgba: Seq<u8>, params: AdjustParams, coverage: Option<Arc<SelectionCoverage>> },
    Finish { rgba: Seq<u8> },
}

impl View for FoldAction {
    type V = Ask;

    open spec fn view(&self) -> Ask {
        match *self {
            FoldAction::Premultiply { window } => Ask::Premultiply { window: window@ },
            FoldAction::Unpremultiply { window } => Ask::Unpremultiply { window: window@ },
            FoldAction::Blend { backdrop, top, blend, opacity, coverage } => Ask::Blend {
                backdrop: backdrop@,
                top: top@,
                blend,
                opacity,
                coverage,
            },
            FoldAction::Adjust { rgba, params, coverage } => Ask::Adjust {
                rgba: rgba@,
                params,
                coverage,
            },
            FoldAction::Finish { rgba } => Ask::Finish { rgba: rgba@ },
        }
    }
}

/// What a fold waits for.
#[derive(Debug, Clone, Copy, PartialEq, Eq, Structural)]
pub enum FoldPhase {
    /// The premultiplied pixels of a layer.
    Associating,
    /// The blended accumulator.
    Blending,
    /// The straight backdrop of an adjustment.
    Dissociating,
    /// The adjusted backdrop.
    Adjusting,
    /// The adjusted accumulator.
    Reassociating,
    /// The straight composite.
    Leaving,
    /// Nothing.
    Ended,
}

/// Where a fold halts: at which step, over which accumulator, what it waits for
/// and what it asks.
pub struct Halt {
    pub at: int,
    pub acc: Seq<u8>,
    pub phase: FoldPhase,
    pub ask: Ask,
}

/// The coverage of a step.
pub open spec fn step_mask(step: FoldStep) -> Option<SelectionCoverage> {
    match step.coverage {
        Some(c) => Some(*c),
        None => None,
    }
}

/// All steps are done: the accumulator leaves premultiplied space.
pub open spec fn leave(at: int, acc: Seq<u8>) -> Halt {
    if opaque(acc) {
        Halt {
            at,
            acc: Seq::empty(),
            phase: FoldPhase::Ended,
            ask: Ask::Finish { rgba: crate::bridge::narrowed(acc) },
        }
    } else {
        Halt {
            at,
            acc: Seq::empty(),
            phase: FoldPhase::Leaving,
            ask: Ask::Unpremultiply { window: acc },
        }
    }
}

/// The premultiplied pixels of a layer go over the accumulator.
pub open spec fn blend_over(steps: Seq<FoldStep>, at: int, acc: Seq<u8>, top: Seq<u8>) -> Halt {
    let step = steps[at];
    Halt {
        at,
        acc: Seq::empty(),
        phase: FoldPhase::Blending,
        ask: Ask::Blend {
            backdrop: acc,
            top,
            blend: step.work->blend,
            opacity: step.work->opacity,
            coverage: step.coverage,
        },
    }
}

/// The fold at a step: a layer's pixels are blended, once they are
/// premultiplied; an adjustment runs over the backdrop, once it is straight.
pub open spec fn enter(steps: Seq<FoldStep>, at: int, acc: Seq<u8>) -> Halt
    decreases steps.len() - at, 2int,
{
    if at >= steps.len() {
        leave(at, acc)
    } else {
        match steps[at].work {
            FoldWork::Blend { pixels, .. } => {
                let top = crate::bridge::widened(pixels.narrow());
                if opaque(top) {
                    blend_over(steps, at, acc, top)
                } else {
                    Halt {
                        at,
                        acc,
                        phase: FoldPhase::Associating,
                        ask: Ask::Premultiply { window: top },
                    }
                }
            },
            FoldWork::Adjust { .. } => {
                if opaque(acc) {
                    retone(steps, at, crate::bridge::narrowed(acc))
                } else {
                    Halt {
                        at,
                        acc: Seq::empty(),
                        phase: FoldPhase::Dissociating,
                        ask: Ask::Unpremultiply { window: acc },
                    }
                }
            },
        }
    }
}

/// An adjustment over the straight backdrop: its stages are the device's; a
/// curve alone needs none.
pub open spec fn retone(steps: Seq<FoldStep>, at: int, rgba: Seq<u8>) -> Halt
    decreases steps.len() - at, 1int,
{
    let step = steps[at];
    let params = step.work->params;
    if at >= steps.len() {
        leave(at, rgba)
    } else if params.staged() {
        Halt {
            at,
            acc: Seq::empty(),
            phase: FoldPhase::Adjusting,
            ask: Ask::Adjust { rgba, params, coverage: step.coverage },
        }
    } else {
        rejoin(
            steps,
            at,
            crate::adjust::adjusted(rgba, params, Seq::empty(), step_mask(step)),
        )
    }
}

/// The adjusted backdrop becomes the accumulator again.
pub open spec fn rejoin(steps: Seq<FoldStep>, at: int, rgba: Seq<u8>) -> Halt
    decreases steps.len() - at, 0int,
{
    let window = crate::bridge::widened(rgba);
    if at >= steps.len() {
        leave(at, window)
    } else if opaque(window) {
        enter(steps, at + 1, window)
    } else {
        Halt {
            at,
            acc: Seq::empty(),
            phase: FoldPhase::Reassociating,
            ask: Ask::Premultiply { window },
        }
    }
}

/// Where a fold halts next, once the device has answered.
pub open spec fn landed(
    steps: Seq<FoldStep>,
    at: int,
    acc: Seq<u8>,
    phase: FoldPhase,
    result: Seq<u8>,
) -> Halt {
    match phase {
        FoldPhase::Associating => blend_over(steps, at, acc, result),
        FoldPhase::Blending => enter(steps, at + 1, result),
        FoldPhase::Dissociating => retone(steps, at, crate::bridge::narrowed(result)),
        FoldPhase::Adjusting => rejoin(
            steps,
            at,
            crate::adjust::adjusted(
                Seq::empty(),
                steps[at].work->params,
                result,
                step_mask(steps[at]),
            ),
        ),
        FoldPhase::Reassociating => enter(steps, at + 1, result),
        FoldPhase::Leaving => Halt {
            at,
            acc: Seq::empty(),
            phase: FoldPhase::Ended,
            ask: Ask::Finish { rgba: crate::bridge::narrowed(result) },
        },
        FoldPhase::Ended => Halt {
            at,
            acc: Seq::empty(),
            phase: FoldPhase::Ended,
            ask: Ask::Finish { rgba: result },
        },
    }
}

/// How far a fold is from its end.
pub open spec fn distance(steps: Seq<FoldStep>, at: int, phase: FoldPhase) -> int {
    match phase {
        FoldPhase::Ended => 0,
        FoldPhase::Leaving => 1,
        FoldPhase::Blending => 4 * (steps.len() - at) + 2,
        FoldPhase::Reassociating => 4 * (steps.len() - at) + 2,
        FoldPhase::Associating => 4 * (steps.len() - at) + 3,
        FoldPhase::Adjusting => 4 * (steps.len() - at) + 3,
        FoldPhase::Dissociating => 4 * (steps.len() - at) + 4,
    }
}

/// Whether a phase belongs to a step.
pub open spec fn in_step(steps: Seq<FoldStep>, at: int, phase: FoldPhase) -> bool {
    match phase {
        FoldPhase::Ended => true,
        FoldPhase::Leaving => true,
        FoldPhase::Blending => 0 <= at < steps.len() && steps[at].work is Blend,
        FoldPhase::Associating => 0 <= at < steps.len() && steps[at].work is Blend,
        FoldPhase::Dissociating => 0 <= at < steps.len() && steps[at].work is Adjust,
        FoldPhase::Adjusting => 0 <= at < steps.len() && steps[at].work is Adjust
            && steps[at].work->params.staged(),
        FoldPhase::Reassociating => 0 <= at < steps.len() && steps[at].work is Adjust,
    }
}

proof fn lemma_enter(steps: Seq<FoldStep>, at: int, acc: Seq<u8>)
    requires
        0 <= at <= steps.len(),
    ensures
        ({
            let h = enter(steps, at, acc);
            &&& at <= h.at <= steps.len()
            &&& in_step(steps, h.at, h.phase)
            &&& 0 <= distance(steps, h.at, h.phase) <= 4 * (steps.len() - at) + 4
        }),
    decreases steps.len() - at, 2int,
{
    if at < steps.len() && steps[at].work is Adjust && opaque(acc) {
        lemma_retone(steps, at, crate::bridge::narrowed(acc));
    }
}

proof fn lemma_retone(steps: Seq<FoldStep>, at: int, rgba: Seq<u8>)
    requires
        0 <= at < steps.len(),
        steps[at].work is Adjust,
    ensures
        ({
            let h = retone(steps, at, rgba);
            &&& at <= h.at <= steps.len()
            &&& in_step(steps, h.at, h.phase)
            &&& 0 <= distance(steps, h.at, h.phase) <= 4 * (steps.len() - at) + 3
        }),
    decreases steps.len() - at, 1int,
{
    let step = steps[at];
    if !step.work->params.staged() {
        lemma_rejoin(
            steps,
            at,
            crate::adjust::adjusted(rgba, step.work->params, Seq::empty(), step_mask(step)),
        );
    }
}

proof fn lemma_rejoin(steps: Seq<FoldStep>, at: int, rgba: Seq<u8>)
    requires
        0 <= at < steps.len(),
        steps[at].work is Adjust,
    ensures
        ({
            let h = rejoin(steps, at, rgba);
            &&& at <= h.at <= steps.len()
            &&& in_step(steps, h.at, h.phase)
            &&& 0 <= distance(steps, h.at, h.phase) <= 4 * (steps.len() - at) + 2
        }),
    decreases steps.len() - at, 0int,
{
    let window = crate::bridge::widened(rgba);
    if opaque(window) {
        lemma_enter(steps, at + 1, window);
    }
}

/// A fold ends: every answer of the device brings it closer to its end, which
/// it reaches after at most four calls for each step and one more.
pub proof fn every_answer_brings_the_end_closer(
    steps: Seq<FoldStep>,
    at: int,
    acc: Seq<u8>,
    phase: FoldPhase,
    result: Seq<u8>,
)
    requires
        0 <= at <= steps.len(),
        in_step(steps, at, phase),
        phase != FoldPhase::Ended,
    ensures
        ({
            let h = landed(steps, at, acc, phase, result);
            &&& 0 <= h.at <= steps.len()
            &&& in_step(steps, h.at, h.phase)
            &&& 0 <= distance(steps, h.at, h.phase) < distance(steps, at, phase)
        }),
{
    match phase {
        FoldPhase::Blending | FoldPhase::Reassociating => {
            lemma_enter(steps, at + 1, result);
        },
        FoldPhase::Dissociating => {
            lemma_retone(steps, at, crate::bridge::narrowed(result));
        },
        FoldPhase::Adjusting => {
            lemma_rejoin(
                steps,
                at,
                crate::adjust::adjusted(
                    Seq::empty(),
                    steps[at].work->params,
                    result,
                    step_mask(steps[at]),
                ),
            );
        },
        _ => {},
    }
}

/// Opaque layers need no casts: over steps that all blend opaque pixels the
/// device is only ever asked to blend, whatever it answers on the way.
pub proof fn opaque_layers_are_only_blended(steps: Seq<FoldStep>, at: int, acc: Seq<u8>)
    requires
        0 <= at < steps.len(),
        forall|k: int|
            0 <= k < steps.len() ==> ((#[trigger] steps[k]).work matches FoldWork::Blend {
                pixels,
                ..
            } && opaque(crate::bridge::widened(pixels.narrow()))),
    ensures
        enter(steps, at, acc).phase == FoldPhase::Blending,
        enter(steps, at, acc).at == at,
{
    assert(steps[at].work is Blend);
}

/// A fold under way.
#[derive(Debug)]
pub struct Fold {
    pub steps: Vec<FoldStep>,
    /// The step under way.
    pub at: usize,
    /// The accumulator, while the device does not hold it.
    pub acc: Vec<u8>,
    pub phase: FoldPhase,
}

impl Fold {
    /// Whether the fold waits for something that its step asks for.
    pub open spec fn wf(self) -> bool {
        self.at <= self.steps@.len() && in_step(self.steps@, self.at as int, self.phase)
    }

    /// Whether the fold halted as it should, with the same steps.
    pub open spec fn halted(self, before: Seq<FoldStep>, h: Halt, action: FoldAction) -> bool {
        &&& self.steps@ == before
        &&& self.at == h.at
        &&& self.acc@ == h.acc
        &&& self.phase == h.phase
        &&& action@ == h.ask
    }

    /// Begin a fold over a transparent canvas. Returns the fold and what it asks
    /// first.
    pub fn begin(steps: Vec<FoldStep>, width: u32, height: u32) -> (fold: (Fold, FoldAction))
        requires
            width * height * 8 <= usize::MAX,
        ensures
            fold.0.wf(),
            fold.0.halted(
                steps@,
                enter(steps@, 0, crate::layers::zeros((width * height * 8) as nat)),
                fold.1,
            ),
    {
        proof {
            assert(width * height <= width * height * 8) by (nonlinear_arith)
                requires
                    0 <= width,
                    0 <= height,
            ;
        }
        let n: usize = width as usize * height as usize * 8;
        let mut acc: Vec<u8> = Vec::new();
        let mut i: usize = 0;
        while i < n
            invariant
                i <= n,
                acc@ == crate::layers::zeros(i as nat),
            decreases n - i,
        {
            acc.push(0);
            i = i + 1;
            proof {
                assert(acc@ =~= crate::layers::zeros(i as nat));
            }
        }
        let mut fold: Fold = Fold { steps, at: 0, acc: Vec::new(), phase: FoldPhase::Ended };
        let action: FoldAction = fold.enter(acc);
        (fold, action)
    }

    /// Take what the device made of the last request, and say what comes next.
    /// A fold that has ended hands the result back.
    pub fn land(&mut self, result: Vec<u8>) -> (action: FoldAction)
        requires
            old(self).wf(),
        ensures
            final(self).wf(),
            final(self).halted(
                old(self).steps@,
                landed(
                    old(self).steps@,
                    old(self).at as int,
                    old(self).acc@,
                    old(self).phase,
                    result@,
                ),
                action,
            ),
    {
        match self.phase {
            FoldPhase::Associating => self.blend(result),
            FoldPhase::Blending | FoldPhase::Reassociating => {
                self.next();
                self.enter(result)
            },
            FoldPhase::Dissociating => {
                let rgba: Vec<u8> = f16_to_rgba8(result.as_slice());
                self.retone(rgba)
            },
            FoldPhase::Adjusting => self.curve(result),
            FoldPhase::Leaving => {
                self.acc = Vec::new();
                self.phase = FoldPhase::Ended;
                FoldAction::Finish { rgba: f16_to_rgba8(result.as_slice()) }
            },
            FoldPhase::Ended => {
                self.acc = Vec::new();
                FoldAction::Finish { rgba: result }
            },
        }
    }

    fn next(&mut self)
        requires
            old(self).at < old(self).steps@.len(),
        ensures
            final(self).at == old(self).at + 1,
            final(self).steps == old(self).steps,
    {
        let n: usize = self.steps.len();
        assert(self.at < n);
        self.at = self.at + 1;
    }

    fn curve(&mut self, ran: Vec<u8>) -> (action: FoldAction)
        requires
            old(self).at < old(self).steps@.len(),
            old(self).steps@[old(self).at as int].work is Adjust,
        ensures
            final(self).wf(),
            final(self).halted(
                old(self).steps@,
                rejoin(
                    old(self).steps@,
                    old(self).at as int,
                    crate::adjust::adjusted(
                        Seq::empty(),
                        old(self).steps@[old(self).at as int].work->params,
                        ran@,
                        step_mask(old(self).steps@[old(self).at as int]),
                    ),
                ),
                action,
            ),
    {
        let params: AdjustParams = self.params();
        let none: Vec<u8> = Vec::new();
        let mask: Option<Arc<SelectionCoverage>> = self.mask();
        let adjusted: Vec<u8> = adjust_rgba8(
            none.as_slice(),
            &params,
            ran,
            match &mask {
                Some(c) => Some(c),
                None => None,
            },
        );
        proof {
            assert(none@ =~= Seq::<u8>::empty());
        }
        self.rejoin(adjusted)
    }

    fn params(&self) -> (params: AdjustParams)
        requires
            self.at < self.steps@.len(),
            self.steps@[self.at as int].work is Adjust,
        ensures
            params == self.steps@[self.at as int].work->params,
    {
        match &self.steps[self.at].work {
            FoldWork::Adjust { params } => *params,
            FoldWork::Blend { .. } => {
                proof {
                    assert(false);
                }
                AdjustParams::default()
            },
        }
    }

    fn mask(&self) -> (mask: Option<Arc<SelectionCoverage>>)
        requires
            self.at < self.steps@.len(),
        ensures
            mask == self.steps@[self.at as int].coverage,
    {
        match &self.steps[self.at].coverage {
            Some(c) => Some(Arc::clone(c)),
            None => None,
        }
    }

    fn blend(&mut self, top: Vec<u8>) -> (action: FoldAction)
        requires
            old(self).at < old(self).steps@.len(),
            old(self).steps@[old(self).at as int].work is Blend,
        ensures
            final(self).wf(),
            final(self).halted(
                old(self).steps@,
                blend_over(old(self).steps@, old(self).at as int, old(self).acc@, top@),
                action,
            ),
    {
        let coverage: Option<Arc<SelectionCoverage>> = self.mask();
        let mut backdrop: Vec<u8> = Vec::new();
        std::mem::swap(&mut backdrop, &mut self.acc);
        self.phase = FoldPhase::Blending;
        match &self.steps[self.at].work {
            FoldWork::Blend { blend, opacity, .. } => FoldAction::Blend {
                backdrop,
                top,
                blend: *blend,
                opacity: *opacity,
                coverage,
            },
            FoldWork::Adjust { .. } => {
                proof {
                    assert(false);
                }
                FoldAction::Finish { rgba: top }
            },
        }
    }

    fn retone(&mut self, rgba: Vec<u8>) -> (action: FoldAction)
        requires
            old(self).at < old(self).steps@.len(),
            old(self).steps@[old(self).at as int].work is Adjust,
        ensures
            final(self).wf(),
            final(self).halted(
                old(self).steps@,
                retone(old(self).steps@, old(self).at as int, rgba@),
                action,
            ),
        decreases old(self).steps@.len() - old(self).at, 1int,
    {
        let params: AdjustParams = self.params();
        let coverage: Option<Arc<SelectionCoverage>> = self.mask();
        if params.has_gpu_stage() {
            self.acc = Vec::new();
            self.phase = FoldPhase::Adjusting;
            return FoldAction::Adjust { rgba, params, coverage };
        }
        let none: Vec<u8> = Vec::new();
        let adjusted: Vec<u8> = adjust_rgba8(
            rgba.as_slice(),
            &params,
            none,
            match &coverage {
                Some(c) => Some(c),
                None => None,
            },
        );
        proof {
            assert(none@ =~= Seq::<u8>::empty());
        }
        self.rejoin(adjusted)
    }

    fn rejoin(&mut self, rgba: Vec<u8>) -> (action: FoldAction)
        requires
            old(self).at < old(self).steps@.len(),
            old(self).steps@[old(self).at as int].work is Adjust,
        ensures
            final(self).wf(),
            final(self).halted(
                old(self).steps@,
                rejoin(old(self).steps@, old(self).at as int, rgba@),
                action,
            ),
        decreases old(self).steps@.len() - old(self).at, 0int,
    {
        let window: Vec<u8> = rgba8_to_f16(rgba.as_slice());
        if window_is_opaque(window.as_slice()) {
            self.next();
            return self.enter(window);
        }
        self.acc = Vec::new();
        self.phase = FoldPhase::Reassociating;
        FoldAction::Premultiply { window }
    }

    fn enter(&mut self, acc: Vec<u8>) -> (action: FoldAction)
        requires
            old(self).at <= old(self).steps@.len(),
        ensures
            final(self).wf(),
            final(self).halted(
                old(self).steps@,
                enter(old(self).steps@, old(self).at as int, acc@),
                action,
            ),
        decreases old(self).steps@.len() - old(self).at, 2int,
    {
        if self.at >= self.steps.len() {
            self.acc = Vec::new();
            if window_is_opaque(acc.as_slice()) {
                self.phase = FoldPhase::Ended;
                return FoldAction::Finish { rgba: f16_to_rgba8(acc.as_slice()) };
            }
            self.phase = FoldPhase::Leaving;
            return FoldAction::Unpremultiply { window: acc };
        }
        let top: Option<Vec<u8>> = match &self.steps[self.at].work {
            FoldWork::Blend { pixels, .. } => {
                let view = pixels.to_rgba8();
                Some(rgba8_to_f16(view.as_slice()))
            },
            FoldWork::Adjust { .. } => None,
        };
        match top {
            Some(window) => {
                self.acc = acc;
                if window_is_opaque(window.as_slice()) {
                    return self.blend(window);
                }
                self.phase = FoldPhase::Associating;
                FoldAction::Premultiply { window }
            },
            None => {
                if window_is_opaque(acc.as_slice()) {
                    let rgba: Vec<u8> = f16_to_rgba8(acc.as_slice());
                    return self.retone(rgba);
                }
                self.acc = Vec::new();
                self.phase = FoldPhase::Dissociating;
                FoldAction::Unpremultiply { window: acc }
            },
        }
    }
}

/// A pixel layer goes over what is beneath it under its own terms: whether its
/// pixels have to be premultiplied first or are opaque already, the device is then
/// asked to blend exactly them over the accumulator, with the blend, the opacity
/// and the coverage of the step.
pub proof fn a_layer_is_blended_under_its_own_terms(
    steps: Seq<FoldStep>,
    at: int,
    acc: Seq<u8>,
    answer: Seq<u8>,
)
    requires
        0 <= at < steps.len(),
        steps[at].work is Blend,
    ensures
        ({
            let h = enter(steps, at, acc);
            let straight = crate::bridge::widened(steps[at].work->pixels.narrow());
            &&& h.at == at
            &&& match h.ask {
                Ask::Blend { backdrop, top, blend, opacity, coverage } => {
                    &&& opaque(straight)
                    &&& backdrop == acc
                    &&& top == straight
                    &&& blend == steps[at].work->blend
                    &&& opacity == steps[at].work->opacity
                    &&& coverage == steps[at].coverage
                },
                Ask::Premultiply { window } => {
                    &&& !opaque(straight)
                    &&& window == straight
                    &&& landed(steps, h.at, h.acc, h.phase, answer).ask matches Ask::Blend {
                        backdrop,
                        top,
                        blend,
                        opacity,
                        coverage,
                    } && backdrop == acc && top == answer && blend == steps[at].work->blend
                        && opacity == steps[at].work->opacity && coverage == steps[at].coverage
                },
                _ => false,
            }
        }),
{
}

/// What the device made of a blend is what the next step starts from, and after the
/// last step it is the composite: straight pixels, divided by their alpha once
/// where they are not opaque.
pub proof fn a_blend_becomes_the_next_backdrop(
    steps: Seq<FoldStep>,
    at: int,
    acc: Seq<u8>,
    blended: Seq<u8>,
    straight: Seq<u8>,
)
    requires
        0 <= at < steps.len(),
    ensures
        ({
            let h = landed(steps, at, acc, FoldPhase::Blending, blended);
            &&& at + 1 < steps.len() && steps[at + 1].work is Blend ==> {
                ||| h.ask matches Ask::Blend { backdrop, .. } && backdrop == blended
                ||| h.ask is Premultiply && h.acc == blended
            }
            &&& at + 1 < steps.len() && steps[at + 1].work is Adjust && !opaque(blended) ==> (h.ask
                matches Ask::Unpremultiply { window } && window == blended)
            &&& at + 1 == steps.len() && opaque(blended) ==> (h.ask matches Ask::Finish { rgba }
                && rgba == crate::bridge::narrowed(blended))
            &&& at + 1 == steps.len() && !opaque(blended) ==> {
                &&& h.ask matches Ask::Unpremultiply { window } && window == blended
                &&& landed(steps, h.at, h.acc, h.phase, straight).ask matches Ask::Finish { rgba }
                    && rgba == crate::bridge::narrowed(straight)
            }
        }),
{
}

/// An adjustment runs over the straight pixels beneath it under its own terms: its
/// stages with its own parameters and coverage, and its curve over what the device
/// made of them, in that coverage.
pub proof fn an_adjustment_runs_under_its_own_terms(
    steps: Seq<FoldStep>,
    at: int,
    acc: Seq<u8>,
    straight: Seq<u8>,
    ran: Seq<u8>,
)
    requires
        0 <= at < steps.len(),
        steps[at].work is Adjust,
        steps[at].work->params.staged(),
    ensures
        ({
            let h = landed(steps, at, acc, FoldPhase::Dissociating, straight);
            &&& h.ask matches Ask::Adjust { rgba, params, coverage } && rgba
                == crate::bridge::narrowed(straight) && params == steps[at].work->params && coverage
                == steps[at].coverage
            &&& h.at == at
        }),
        ({
            let out = crate::adjust::adjusted(
                Seq::empty(),
                steps[at].work->params,
                ran,
                match steps[at].coverage {
                    Some(c) => Some(*c),
                    None => None,
                },
            );
            let next = landed(steps, at, acc, FoldPhase::Adjusting, ran);
            let window = crate::bridge::widened(out);
            !opaque(window) ==> (next.ask matches Ask::Premultiply { window: v } && v == window
                && next.at == at && next.phase == FoldPhase::Reassociating)
        }),
{
}

} // verus!
