//! The selection of a session: one coverage field, bound to one image.
//!
//! No selection means that everything is selected, and edits run unmasked. A
//! selection that is empty all over is another matter: it is kept, and edits
//! then apply nowhere. Binding another image, or another resolution, drops the
//! selection, which means nothing across resolutions.
//!
//! How two fields combine, how one inverts and how one softens is the caller's;
//! what they are applied to is settled here.
use crate::coverage::SelectionCoverage;
use crate::strings::push_decimal;
use std::sync::Arc;
use vstd::prelude::*;

verus! {

/// The image that a selection is bound to; its extent fixes the field's.
#[derive(Debug, Clone, Copy, PartialEq, Eq, Structural)]
pub struct BoundImage {
    pub handle: u32,
    pub width: u32,
    pub height: u32,
}

/// How a shape is folded into a selection.
#[derive(Debug, Clone, Copy, PartialEq, Eq, Structural)]
pub enum CombineMode {
    Replace,
    Add,
    Subtract,
    Intersect,
}

/// One session's selection, with a revision that grows with every change.
#[derive(Debug)]
pub struct SessionSelection {
    bound: Option<BoundImage>,
    coverage: Option<Arc<SelectionCoverage>>,
    revision: u64,
}

/// The sentence for a selection without an image.
pub open spec fn unbound() -> Seq<char> {
    "no image bound (selection_bind first)"@
}

/// The sentence for a shape of another extent than the bound image.
pub open spec fn mismatch(w: u32, h: u32, b: BoundImage) -> Seq<char> {
    "shape "@ + crate::strings::decimal(w as nat) + "x"@ + crate::strings::decimal(h as nat)
        + " does not match the bound image "@ + crate::strings::decimal(b.width as nat) + "x"@
        + crate::strings::decimal(b.height as nat)
}

fn mismatch_text(w: u32, h: u32, b: BoundImage) -> (text: String)
    ensures
        text@ == mismatch(w, h, b),
{
    let mut text: String = "shape ".to_owned();
    push_decimal(&mut text, w as u128);
    text.append("x");
    push_decimal(&mut text, h as u128);
    text.append(" does not match the bound image ");
    push_decimal(&mut text, b.width as u128);
    text.append("x");
    push_decimal(&mut text, b.height as u128);
    text
}

/// Whether two fields have one extent.
pub open spec fn same_extent(a: SelectionCoverage, b: SelectionCoverage) -> bool {
    a.columns() == b.columns() && a.rows() == b.rows()
}

/// Whether a field is all ones over an extent.
pub open spec fn is_full(c: SelectionCoverage, w: u32, h: u32) -> bool {
    c.columns() == w && c.rows() == h && c.sized() && c.all_one()
}

/// Whether a selection is what folding a shape into another leaves.
pub open spec fn folds<
    C: Fn(&SelectionCoverage, &SelectionCoverage, CombineMode) -> SelectionCoverage,
>(
    before: Option<SelectionCoverage>,
    shape: SelectionCoverage,
    mode: CombineMode,
    combine: C,
    after: Option<SelectionCoverage>,
) -> bool {
    match (before, after) {
        (None, Some(c)) => if mode is Replace || mode is Add {
            c == shape
        } else {
            exists|full: SelectionCoverage|
                #![trigger is_full(full, shape.columns(), shape.rows())]
                is_full(full, shape.columns(), shape.rows()) && combine.ensures(
                    (&full, &shape, mode),
                    c,
                )
        },
        (Some(base), Some(c)) => combine.ensures((&base, &shape, mode), c),
        (_, None) => false,
    }
}

/// Whether a selection is what inverting another leaves.
pub open spec fn inverts<I: Fn(&SelectionCoverage) -> SelectionCoverage>(
    before: Option<SelectionCoverage>,
    image: Option<BoundImage>,
    inverse: I,
    after: Option<SelectionCoverage>,
) -> bool {
    match (before, after, image) {
        (None, Some(c), Some(b)) => exists|full: SelectionCoverage|
            #![trigger is_full(full, b.width, b.height)]
            is_full(full, b.width, b.height) && inverse.ensures((&full,), c),
        (Some(base), Some(c), _) => inverse.ensures((&base,), c),
        _ => false,
    }
}

impl SessionSelection {
    /// Whether binding an image left the selection as it should: a selection is kept
    /// only where the image was bound already, at this extent, and a lost one is told
    /// by the revision.
    pub open spec fn binds(self, after: SessionSelection, handle: u32, width: u32, height: u32) -> bool {
        let kept = self.image() == Some(BoundImage { handle, width, height });
        &&& after.image() == Some(BoundImage { handle, width, height })
        &&& after.field() == (if kept {
            self.field()
        } else {
            None
        })
        &&& after.count() == self.count() + (if !kept && self.field() is Some {
            1int
        } else {
            0int
        })
    }

    /// Whether handing the selection on to another image left it as it should: it is
    /// kept where the extents agree.
    pub open spec fn transfers(
        self,
        after: SessionSelection,
        handle: u32,
        width: u32,
        height: u32,
        kept: bool,
    ) -> bool {
        &&& after.image() == Some(BoundImage { handle, width, height })
        &&& kept <==> (self.image() matches Some(b) && b.width == width && b.height == height)
        &&& after.field() == (if kept {
            self.field()
        } else {
            None
        })
        &&& after.count() == self.count() + (if !kept && self.field() is Some {
            1int
        } else {
            0int
        })
    }

    /// Whether softening replaced the selection by what was made of it.
    pub open spec fn softens<S: Fn(&SelectionCoverage) -> SelectionCoverage>(
        self,
        after: SessionSelection,
        soften: S,
    ) -> bool {
        &&& after.count() == self.count() + 1
        &&& match (self.field(), after.field()) {
            (Some(base), Some(c)) => soften.ensures((&base,), c),
            _ => false,
        }
    }

    /// Whether the selection was dropped.
    pub open spec fn clears(self, after: SessionSelection) -> bool {
        &&& after.field() is None
        &&& after.count() == self.count() + (if self.field() is Some {
            1int
        } else {
            0int
        })
    }

    /// Whether all of the bound image was selected.
    pub open spec fn fills(self, after: SessionSelection) -> bool {
        &&& after.count() == self.count() + 1
        &&& after.field() matches Some(c)
        &&& self.image() matches Some(b)
        &&& is_full(c, b.width, b.height)
    }

    /// Whether edits of an image run under a mask: a selection of that image that
    /// leaves something out.
    pub open spec fn masks(self, handle: u32, mask: Option<Arc<SelectionCoverage>>) -> bool {
        match mask {
            Some(m) => {
                &&& self.image() matches Some(b) && b.handle == handle
                &&& self.field() == Some(*m)
                &&& !m.all_one()
            },
            None => {
                ||| !(self.image() matches Some(b) && b.handle == handle)
                ||| self.field() is None
                ||| (self.field() matches Some(c) && c.all_one())
            },
        }
    }

    /// The bound image.
    pub closed spec fn image(self) -> Option<BoundImage> {
        self.bound
    }

    /// The explicit selection.
    pub closed spec fn field(self) -> Option<SelectionCoverage> {
        match self.coverage {
            Some(c) => Some(*c),
            None => None,
        }
    }

    /// The revision.
    pub closed spec fn count(self) -> u64 {
        self.revision
    }

    /// What every operation keeps: the bound image is addressable, and a
    /// selection has an image and its extent.
    pub open spec fn wf(self) -> bool {
        &&& self.image() matches Some(b) ==> b.width * b.height <= usize::MAX
        &&& self.field() matches Some(c) ==> {
            &&& self.image() matches Some(b)
            &&& c.columns() == b.width
            &&& c.rows() == b.height
        }
    }

    pub fn new() -> (s: SessionSelection)
        ensures
            s.wf(),
            s.image() is None,
            s.field() is None,
            s.count() == 0,
    {
        SessionSelection { bound: None, coverage: None, revision: 0 }
    }

    /// Bind the selection to an image. The same image at the same extent keeps
    /// the selection; any other drops it.
    pub fn bind(&mut self, handle: u32, width: u32, height: u32)
        requires
            old(self).wf(),
            width * height <= usize::MAX,
            old(self).count() < u64::MAX,
        ensures
            final(self).wf(),
            old(self).binds(*final(self), handle, width, height),
    {
        let next: BoundImage = BoundImage { handle, width, height };
        if let Some(b) = self.bound {
            if b == next {
                return;
            }
        }
        self.bound = Some(next);
        if self.coverage.is_some() {
            self.coverage = None;
            self.revision = self.revision + 1;
        }
    }

    pub fn bound(&self) -> (bound: Option<BoundImage>)
        ensures
            bound == self.image(),
    {
        self.bound
    }

    /// Point the selection at a new handle with the same extent, and keep it:
    /// an edit in place registers its result under a new handle, and the
    /// selection means as much there. On another extent this is a `bind`.
    pub fn transfer(&mut self, handle: u32, width: u32, height: u32) -> (kept: bool)
        requires
            old(self).wf(),
            width * height <= usize::MAX,
            old(self).count() < u64::MAX,
        ensures
            final(self).wf(),
            old(self).transfers(*final(self), handle, width, height, kept),
    {
        if let Some(b) = self.bound {
            if b.width == width && b.height == height {
                self.bound = Some(BoundImage { handle, width, height });
                return true;
            }
        }
        self.bind(handle, width, height);
        false
    }

    /// The explicit selection.
    pub fn coverage(&self) -> (coverage: Option<Arc<SelectionCoverage>>)
        ensures
            match coverage {
                Some(c) => self.field() == Some(*c),
                None => self.field() is None,
            },
    {
        match &self.coverage {
            Some(c) => Some(Arc::clone(c)),
            None => None,
        }
    }

    /// The mask that edits of an image run under: a selection bound to that
    /// image that is not all ones. All ones is the unmasked default.
    pub fn mask_for(&self, handle: u32) -> (mask: Option<Arc<SelectionCoverage>>)
        ensures
            self.masks(handle, mask),
            mask is Some <==> (self.image() matches Some(b) && b.handle == handle) && (self.field()
                matches Some(c) && !c.all_one()),
            mask matches Some(m) ==> self.field() == Some(*m),
    {
        let bound: BoundImage = match self.bound {
            Some(b) => b,
            None => {
                return None;
            },
        };
        if bound.handle != handle {
            return None;
        }
        match &self.coverage {
            Some(c) => {
                if c.is_all_one() {
                    return None;
                }
                Some(Arc::clone(c))
            },
            None => None,
        }
    }

    pub fn revision(&self) -> (revision: u64)
        ensures
            revision == self.count(),
    {
        self.revision
    }

    /// Fold a shape into the selection. Without a selection, `Replace` and `Add`
    /// adopt the shape, and the others start from everything. A refused shape
    /// changes nothing.
    pub fn apply_shape<
        C: Fn(&SelectionCoverage, &SelectionCoverage, CombineMode) -> SelectionCoverage,
    >(&mut self, shape: SelectionCoverage, mode: CombineMode, combine: &C) -> (done: Result<
        (),
        String,
    >)
        requires
            old(self).wf(),
            old(self).count() < u64::MAX,
            forall|a: SelectionCoverage, b: SelectionCoverage, m: CombineMode|
                same_extent(a, b) ==> #[trigger] combine.requires((&a, &b, m)),
            forall|
                a: SelectionCoverage,
                b: SelectionCoverage,
                m: CombineMode,
                r: SelectionCoverage,
            | #[trigger]
                combine.ensures((&a, &b, m), r) ==> same_extent(a, r),
        ensures
            final(self).wf(),
            final(self).image() == old(self).image(),
            done is Ok <==> (old(self).image() matches Some(b) && b.width == shape.columns()
                && b.height == shape.rows()),
            done matches Err(e) ==> {
                &&& final(self).field() == old(self).field()
                &&& final(self).count() == old(self).count()
                &&& e@ == (match old(self).image() {
                    None => unbound(),
                    Some(b) => mismatch(shape.columns(), shape.rows(), b),
                })
            },
            done is Ok ==> final(self).count() == old(self).count() + 1,
            done is Ok ==> folds(old(self).field(), shape, mode, *combine, final(self).field()),
    {
        let bound: BoundImage = match self.bound {
            Some(b) => b,
            None => {
                return Err("no image bound (selection_bind first)".to_owned());
            },
        };
        if shape.width() != bound.width || shape.height() != bound.height {
            return Err(mismatch_text(shape.width(), shape.height(), bound));
        }
        let next: SelectionCoverage = match &self.coverage {
            Some(existing) => combine(existing, &shape, mode),
            None => match mode {
                CombineMode::Replace | CombineMode::Add => shape,
                _ => {
                    let full: SelectionCoverage = SelectionCoverage::full(
                        bound.width,
                        bound.height,
                    );
                    let c: SelectionCoverage = combine(&full, &shape, mode);
                    proof {
                        let f = full;
                        assert(is_full(f, shape.columns(), shape.rows()));
                        assert(combine.ensures((&f, &shape, mode), c));
                    }
                    c
                },
            },
        };
        self.coverage = Some(Arc::new(next));
        self.revision = self.revision + 1;
        Ok(())
    }

    /// Select everything explicitly.
    pub fn select_all(&mut self) -> (done: Result<(), String>)
        requires
            old(self).wf(),
            old(self).count() < u64::MAX,
        ensures
            final(self).wf(),
            final(self).image() == old(self).image(),
            done is Ok <==> old(self).image() is Some,
            done matches Err(e) ==> {
                &&& e@ == unbound()
                &&& final(self).field() == old(self).field()
                &&& final(self).count() == old(self).count()
            },
            done is Ok ==> old(self).fills(*final(self)),
    {
        match self.bound {
            Some(b) => {
                self.coverage = Some(Arc::new(SelectionCoverage::full(b.width, b.height)));
                self.revision = self.revision + 1;
                Ok(())
            },
            None => Err("no image bound (selection_bind first)".to_owned()),
        }
    }

    /// Back to no selection: everything is selected, and nothing says so.
    pub fn clear(&mut self)
        requires
            old(self).wf(),
            old(self).count() < u64::MAX,
        ensures
            final(self).wf(),
            final(self).image() == old(self).image(),
            old(self).clears(*final(self)),
    {
        if self.coverage.is_some() {
            self.coverage = None;
            self.revision = self.revision + 1;
        }
    }

    /// Invert the selection. Without one, everything is inverted.
    pub fn invert<I: Fn(&SelectionCoverage) -> SelectionCoverage>(&mut self, inverse: &I) -> (done:
        Result<(), String>)
        requires
            old(self).wf(),
            old(self).count() < u64::MAX,
            forall|a: SelectionCoverage| #[trigger] inverse.requires((&a,)),
            forall|a: SelectionCoverage, r: SelectionCoverage| #[trigger]
                inverse.ensures((&a,), r) ==> same_extent(a, r),
        ensures
            final(self).wf(),
            final(self).image() == old(self).image(),
            done is Ok <==> old(self).image() is Some,
            done matches Err(e) ==> {
                &&& e@ == unbound()
                &&& final(self).field() == old(self).field()
                &&& final(self).count() == old(self).count()
            },
            done is Ok ==> final(self).count() == old(self).count() + 1,
            done is Ok ==> inverts(
                old(self).field(),
                old(self).image(),
                *inverse,
                final(self).field(),
            ),
    {
        let bound: BoundImage = match self.bound {
            Some(b) => b,
            None => {
                return Err("no image bound (selection_bind first)".to_owned());
            },
        };
        let next: SelectionCoverage = match &self.coverage {
            Some(existing) => inverse(existing),
            None => {
                let full: SelectionCoverage = SelectionCoverage::full(bound.width, bound.height);
                let c: SelectionCoverage = inverse(&full);
                proof {
                    let f = full;
                    assert(is_full(f, bound.width, bound.height));
                    assert(inverse.ensures((&f,), c));
                }
                c
            },
        };
        self.coverage = Some(Arc::new(next));
        self.revision = self.revision + 1;
        Ok(())
    }

    /// Soften the edge of the selection. Everything has no edge: without an
    /// explicit selection this is an error, and changes nothing.
    pub fn feather<S: Fn(&SelectionCoverage) -> SelectionCoverage>(&mut self, soften: &S) -> (done:
        Result<(), String>)
        requires
            old(self).wf(),
            old(self).count() < u64::MAX,
            forall|a: SelectionCoverage| #[trigger] soften.requires((&a,)),
            forall|a: SelectionCoverage, r: SelectionCoverage| #[trigger]
                soften.ensures((&a,), r) ==> same_extent(a, r),
        ensures
            final(self).wf(),
            final(self).image() == old(self).image(),
            done is Ok <==> old(self).field() is Some,
            done matches Err(e) ==> {
                &&& e@ == "no selection to feather"@
                &&& final(self).field() is None
                &&& final(self).count() == old(self).count()
            },
            done is Ok ==> old(self).softens(*final(self), *soften),
    {
        let next: SelectionCoverage = match &self.coverage {
            Some(existing) => soften(existing),
            None => {
                return Err("no selection to feather".to_owned());
            },
        };
        self.coverage = Some(Arc::new(next));
        self.revision = self.revision + 1;
        Ok(())
    }
}

impl Default for SessionSelection {
    fn default() -> (s: SessionSelection)
        ensures
            s.wf(),
            s.image() is None,
            s.field() is None,
            s.count() == 0,
    {
        SessionSelection::new()
    }
}

/// Folding a shape does what its mode says, at every pixel, where the arithmetic of
/// the modes does: adding never takes away and reaches the shape, subtracting never
/// adds and clears what the shape covers fully, intersecting stays inside of both,
/// and replacing is the shape. Without a selection everything counts as selected,
/// but for the modes that adopt the shape.
pub proof fn a_shape_is_folded_in_by_its_mode<
    C: Fn(&SelectionCoverage, &SelectionCoverage, CombineMode) -> SelectionCoverage,
>(
    before: Option<SelectionCoverage>,
    shape: SelectionCoverage,
    mode: CombineMode,
    combine: C,
    after: Option<SelectionCoverage>,
    i: int,
)
    requires
        folds(before, shape, mode, combine, after),
        0 <= i < shape.cells().len(),
        shape.cells().len() == shape.columns() * shape.rows(),
        before matches Some(b) ==> b.cells().len() == shape.cells().len(),
        forall|f: SelectionCoverage| #[trigger]
            is_full(f, shape.columns(), shape.rows()) ==> f.cells().len() == shape.cells().len(),
        forall|
            a: SelectionCoverage,
            b: SelectionCoverage,
            m: CombineMode,
            r: SelectionCoverage,
        | #[trigger]
            combine.ensures((&a, &b, m), r) && i < a.cells().len() && i < b.cells().len() ==> ({
                let (o, n, v) = (a.cells()[i], b.cells()[i], r.cells()[i]);
                match m {
                    CombineMode::Replace => v == n,
                    CombineMode::Add => v == (if o < n {
                        n
                    } else {
                        o
                    }),
                    CombineMode::Subtract => v == (if o < 255 - n {
                        o as int
                    } else {
                        255 - n
                    }),
                    CombineMode::Intersect => v == (if o < n {
                        o
                    } else {
                        n
                    }),
                }
            }),
    ensures
        after matches Some(c) && ({
            let old: int = match before {
                Some(b) => b.cells()[i] as int,
                None => if mode is Replace || mode is Add {
                    0
                } else {
                    255
                },
            };
            let (new, now) = (shape.cells()[i], c.cells()[i]);
            match mode {
                CombineMode::Replace => now == new,
                CombineMode::Add => now >= old && now >= new && (now == old || now == new),
                CombineMode::Subtract => now <= old && (new == 255 ==> now == 0) && (new == 0
                    ==> now == old),
                CombineMode::Intersect => now <= old && now <= new && (now == old || now == new),
            }
        }),
{
    if before is None && !(mode is Replace) && !(mode is Add) {
        let c = after->0;
        let full = choose|full: SelectionCoverage|
            #![trigger is_full(full, shape.columns(), shape.rows())]
            is_full(full, shape.columns(), shape.rows()) && combine.ensures((&full, &shape, mode), c);
        assert(is_full(full, shape.columns(), shape.rows()));
        assert(combine.ensures((&full, &shape, mode), c));
        assert(full.cells()[i] == 255);
    }
}

/// Inverting swaps what is selected and what is not: a pixel is covered afterwards
/// by what it lacked, and no selection, which is everything, becomes nothing.
pub proof fn an_inverse_swaps_in_and_out<I: Fn(&SelectionCoverage) -> SelectionCoverage>(
    before: Option<SelectionCoverage>,
    image: Option<BoundImage>,
    inverse: I,
    after: Option<SelectionCoverage>,
    i: int,
    n: int,
)
    requires
        inverts(before, image, inverse, after),
        0 <= i < n,
        before matches Some(b) ==> b.cells().len() == n,
        image matches Some(b) ==> forall|f: SelectionCoverage| #[trigger]
            is_full(f, b.width, b.height) ==> f.cells().len() == n,
        forall|a: SelectionCoverage, r: SelectionCoverage| #[trigger]
            inverse.ensures((&a,), r) && i < a.cells().len() ==> r.cells()[i] == 255
                - a.cells()[i],
    ensures
        after matches Some(c) && c.cells()[i] == 255 - (match before {
            Some(b) => b.cells()[i] as int,
            None => 255,
        }),
{
    if before is None {
        let c = after->0;
        let b = image->0;
        let full = choose|full: SelectionCoverage|
            #![trigger is_full(full, b.width, b.height)]
            is_full(full, b.width, b.height) && inverse.ensures((&full,), c);
        assert(is_full(full, b.width, b.height));
        assert(full.cells()[i] == 255);
    }
}

/// An edit is confined to the selection of its own image: there is a mask exactly
/// where the selection belongs to the image and leaves some pixel out, and it is the
/// selection.
pub proof fn a_mask_is_the_selection_of_its_image(
    s: SessionSelection,
    handle: u32,
    mask: Option<Arc<SelectionCoverage>>,
)
    requires
        s.masks(handle, mask),
    ensures
        mask is Some <==> {
            &&& s.image() matches Some(b) && b.handle == handle
            &&& s.field() matches Some(c) && exists|i: int|
                0 <= i < c.cells().len() && #[trigger] c.cells()[i] < 255
        },
        mask matches Some(m) ==> s.field() == Some(*m),
{
    if mask is Some {
        let cells = s.field()->0.cells();
        let i = choose|i: int| 0 <= i < cells.len() && #[trigger] cells[i] != 255;
        assert(cells[i] < 255);
    }
}

/// A selection stays with its image: bound again at its extent, the image keeps it, and
/// another image, or another extent, starts with none. The revision moves exactly where
/// a selection is lost.
pub proof fn a_selection_stays_with_its_image(
    before: SessionSelection,
    after: SessionSelection,
    handle: u32,
    width: u32,
    height: u32,
)
    requires
        before.binds(after, handle, width, height),
    ensures
        after.image() matches Some(b) && b.handle == handle && b.width == width && b.height == height,
        before.image() matches Some(b) && b.handle == handle && b.width == width && b.height == height
            ==> after.field() == before.field() && after.count() == before.count(),
        before.image() matches Some(b) && (b.handle != handle || b.width != width || b.height != height)
            ==> after.field() is None,
        before.image() is None ==> after.field() is None,
        after.field() is None && before.field() is Some ==> after.count() == before.count() + 1,
        after.field() == before.field() ==> after.count() == before.count(),
{
}

/// A selection goes over to another image of the same extent, and to no other.
pub proof fn a_selection_goes_over_to_its_like(
    before: SessionSelection,
    after: SessionSelection,
    handle: u32,
    width: u32,
    height: u32,
    kept: bool,
)
    requires
        before.transfers(after, handle, width, height, kept),
    ensures
        after.image() matches Some(b) && b.handle == handle && b.width == width && b.height == height,
        before.image() matches Some(b) && b.width == width && b.height == height ==> kept
            && after.field() == before.field() && after.count() == before.count(),
        before.image() matches Some(b) && (b.width != width || b.height != height) ==> !kept
            && after.field() is None,
        before.image() is None ==> !kept && after.field() is None,
        after.field() is None && before.field() is Some ==> after.count() == before.count() + 1,
{
}

/// Softening works on the selection as it stands, selecting all covers the bound image
/// with 255, and clearing leaves none; each is told by the revision.
pub proof fn a_changed_selection_is_told<S: Fn(&SelectionCoverage) -> SelectionCoverage>(
    before: SessionSelection,
    softened: SessionSelection,
    filled: SessionSelection,
    cleared: SessionSelection,
    soften: S,
    i: int,
)
    requires
        before.softens(softened, soften),
        before.fills(filled),
        before.clears(cleared),
        before.image() is Some,
        0 <= i < before.image()->0.width * before.image()->0.height,
    ensures
        soften.ensures((&before.field()->0,), softened.field()->0),
        softened.count() == before.count() + 1,
        filled.field()->0.columns() == before.image()->0.width,
        filled.field()->0.rows() == before.image()->0.height,
        filled.field()->0.cells().len() == before.image()->0.width * before.image()->0.height,
        filled.field()->0.cells()[i] == 255,
        filled.count() == before.count() + 1,
        cleared.field() is None,
        cleared.count() == before.count() + 1,
{
}

} // verus!
