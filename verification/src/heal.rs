//! The healing brush's gradient-domain correction.
//!
//! Seamless cloning writes its result as the source plus a correction that
//! equals the difference of destination and source on the boundary of the
//! patch and is harmonic inside of it. A constant correction, the mean, solves
//! exactly that equation where the mismatch is uniform.
//!
//! The caller supplies the arithmetic: the difference of two samples, the mean
//! of a list, the average of four neighbours and the half-precision form of a
//! number. Which samples are measured, what the field starts from, which
//! neighbours a cell has and how often the field is swept is settled here, for
//! every such arithmetic.
use crate::scalar::{Scalar, ZERO};
use vstd::prelude::*;

verus! {

/// How many sweeps are run: a fixed count, so that a dab has a predictable
/// cost.
pub const SWEEPS: usize = 64;

/// Whether a pixel is a boundary condition: outside of the dab, and opaque to
/// any degree in the source. A transparent source pixel is out-of-bounds fill
/// and no measurement.
pub open spec fn measured(source: Seq<u8>, inside: Seq<u8>, i: int) -> bool {
    inside[i] == 0 && source[4 * i + 3] != 0
}

/// Whether the windows hold `n` pixels.
pub open spec fn covers(dest: Seq<u8>, source: Seq<u8>, inside: Seq<u8>, n: int) -> bool {
    dest.len() >= 4 * n && source.len() >= 4 * n && inside.len() >= n
}

/// Whether there is a boundary to interpolate from.
pub open spec fn solvable(dest: Seq<u8>, source: Seq<u8>, inside: Seq<u8>, n: int) -> bool {
    &&& covers(dest, source, inside, n)
    &&& exists|i: int| 0 <= i < n && #[trigger] measured(source, inside, i)
}

/// The values of a channel over the measured ones of the first `n` pixels.
pub open spec fn measurements(
    field: Seq<Scalar>,
    source: Seq<u8>,
    inside: Seq<u8>,
    ch: int,
    n: nat,
) -> Seq<Scalar>
    decreases n,
{
    if n == 0 {
        Seq::empty()
    } else {
        let rest = measurements(field, source, inside, ch, (n - 1) as nat);
        if measured(source, inside, n - 1) {
            rest.push(field[3 * (n - 1) + ch])
        } else {
            rest
        }
    }
}

/// Whether `m` is a mean of the list.
pub open spec fn is_mean<M: Fn(&Vec<Scalar>) -> Scalar>(
    mean: M,
    list: Seq<Scalar>,
    m: Scalar,
) -> bool {
    exists|v: Vec<Scalar>| #[trigger] v@ == list && mean.ensures((&v,), m)
}

/// Whether a field is the start of the solve: the differences where they are
/// measured, their mean inside of the dab, and zero elsewhere.
pub open spec fn started<
    D: Fn(u8, u8) -> Scalar,
    M: Fn(&Vec<Scalar>) -> Scalar,
>(
    difference: D,
    mean: M,
    dest: Seq<u8>,
    source: Seq<u8>,
    inside: Seq<u8>,
    n: nat,
    field: Seq<Scalar>,
) -> bool {
    &&& field.len() == 3 * n
    &&& forall|i: int, ch: int|
        #![trigger field[3 * i + ch]]
        0 <= i < n && 0 <= ch < 3 ==> {
            &&& measured(source, inside, i) ==> difference.ensures(
                (dest[4 * i + ch], source[4 * i + ch]),
                field[3 * i + ch],
            )
            &&& inside[i] == 0 && !measured(source, inside, i) ==> field[3 * i + ch]
                == crate::scalar::zero()
            &&& inside[i] != 0 ==> is_mean(
                mean,
                measurements(field, source, inside, ch, n),
                field[3 * i + ch],
            )
        }
}

/// The pixel to the left of `i`, or `i` itself at the rim.
pub open spec fn left(w: int, i: int) -> int {
    if i % w > 0 {
        i - 1
    } else {
        i
    }
}

/// The pixel to the right of `i`, or `i` itself at the rim.
pub open spec fn right(w: int, i: int) -> int {
    if i % w + 1 < w {
        i + 1
    } else {
        i
    }
}

/// The pixel above `i`, or `i` itself at the rim.
pub open spec fn above(w: int, i: int) -> int {
    if i / w > 0 {
        i - w
    } else {
        i
    }
}

/// The pixel below `i`, or `i` itself at the rim.
pub open spec fn below(w: int, h: int, i: int) -> int {
    if i / w + 1 < h {
        i + w
    } else {
        i
    }
}

/// Whether a pixel tells nothing: outside of the dab, and transparent in the
/// source.
pub open spec fn void(source: Seq<u8>, inside: Seq<u8>, i: int) -> bool {
    inside[i] == 0 && source[4 * i + 3] == 0
}

/// What pixel `i` takes neighbour `n` for: itself, where the neighbour tells
/// nothing.
pub open spec fn heard(source: Seq<u8>, inside: Seq<u8>, i: int, n: int) -> int {
    if void(source, inside, n) {
        i
    } else {
        n
    }
}

/// Whether one sweep leads from `a` to `b`: every value inside of the dab
/// becomes the average of its four neighbours, and the boundary stays. A
/// neighbour outside of the window, or one that is transparent in the source
/// and so is no boundary condition, is the pixel itself.
pub open spec fn swept<A: Fn(Scalar, Scalar, Scalar, Scalar) -> Scalar>(
    average: A,
    source: Seq<u8>,
    inside: Seq<u8>,
    w: int,
    h: int,
    a: Seq<Scalar>,
    b: Seq<Scalar>,
) -> bool {
    &&& b.len() == a.len()
    &&& forall|i: int, ch: int|
        #![trigger b[3 * i + ch]]
        0 <= i < w * h && 0 <= ch < 3 ==> if inside[i] == 0 {
            b[3 * i + ch] == a[3 * i + ch]
        } else {
            average.ensures(
                (
                    a[3 * heard(source, inside, i, left(w, i)) + ch],
                    a[3 * heard(source, inside, i, right(w, i)) + ch],
                    a[3 * heard(source, inside, i, above(w, i)) + ch],
                    a[3 * heard(source, inside, i, below(w, h, i)) + ch],
                ),
                b[3 * i + ch],
            )
        }
}

/// Whether the fields are a run of sweeps.
pub open spec fn sweeps_through<A: Fn(Scalar, Scalar, Scalar, Scalar) -> Scalar>(
    average: A,
    source: Seq<u8>,
    inside: Seq<u8>,
    w: int,
    h: int,
    fields: Seq<Seq<Scalar>>,
) -> bool {
    forall|k: int|
        #![trigger fields[k]]
        0 < k < fields.len() ==> swept(average, source, inside, w, h, fields[k - 1], fields[k])
}

/// Whether a field solves a healing window.
pub open spec fn heals<
    D: Fn(u8, u8) -> Scalar,
    M: Fn(&Vec<Scalar>) -> Scalar,
    A: Fn(Scalar, Scalar, Scalar, Scalar) -> Scalar,
>(
    difference: D,
    mean: M,
    average: A,
    dest: Seq<u8>,
    source: Seq<u8>,
    inside: Seq<u8>,
    w: int,
    h: int,
    field: Seq<Scalar>,
) -> bool {
    exists|fields: Seq<Seq<Scalar>>|
        {
            &&& fields.len() == SWEEPS + 1
            &&& started(difference, mean, dest, source, inside, (w * h) as nat, fields[0])
            &&& #[trigger] sweeps_through(average, source, inside, w, h, fields)
            &&& fields[SWEEPS as int] == field
        }
}

proof fn lemma_neighbours(w: int, h: int, i: int)
    requires
        0 < w,
        0 <= i < w * h,
    ensures
        0 <= left(w, i) < w * h,
        0 <= right(w, i) < w * h,
        0 <= above(w, i) < w * h,
        0 <= below(w, h, i) < w * h,
{
    crate::grid::lemma_coordinates(i, w, h);
    let (x, y) = (i % w, i / w);
    if x > 0 {
        crate::grid::lemma_pixel_index(x - 1, y, w, h);
    }
    if x + 1 < w {
        crate::grid::lemma_pixel_index(x + 1, y, w, h);
    }
    if y > 0 {
        crate::grid::lemma_pixel_index(x, y - 1, w, h);
        assert((y - 1) * w == y * w - w) by (nonlinear_arith);
    }
    if y + 1 < h {
        crate::grid::lemma_pixel_index(x, y + 1, w, h);
        assert((y + 1) * w == y * w + w) by (nonlinear_arith);
    }
}

fn hear(source: &[u8], inside: &[u8], i: usize, n: usize) -> (m: usize)
    requires
        n < inside@.len(),
        4 * n + 3 < source@.len(),
    ensures
        m == heard(source@, inside@, i as int, n as int),
{
    let len: usize = source.len();
    if inside[n] == 0 && source[4 * n + 3] == 0 {
        i
    } else {
        n
    }
}

/// One sweep of the field.
pub fn sweep<A: Fn(Scalar, Scalar, Scalar, Scalar) -> Scalar>(
    field: &Vec<Scalar>,
    source: &[u8],
    inside: &[u8],
    width: usize,
    height: usize,
    average: &A,
) -> (next: Vec<Scalar>)
    requires
        0 < width,
        field@.len() == 3 * (width * height),
        source@.len() >= 4 * (width * height),
        inside@.len() >= width * height,
        forall|a: Scalar, b: Scalar, c: Scalar, d: Scalar| #[trigger]
            average.requires((a, b, c, d)),
    ensures
        swept(*average, source@, inside@, width as int, height as int, field@, next@),
{
    let ghost (w, h) = (width as int, height as int);
    let total: usize = field.len();
    let n: usize = total / 3;
    let mut next: Vec<Scalar> = Vec::new();
    let mut i: usize = 0;
    while i < n
        invariant
            w == width,
            h == height,
            0 < width,
            n == w * h,
            total == 3 * n,
            field@.len() == total,
            source@.len() >= 4 * n,
            inside@.len() >= n,
            i <= n,
            next@.len() == 3 * i,
            forall|a: Scalar, b: Scalar, c: Scalar, d: Scalar| #[trigger]
                average.requires((a, b, c, d)),
            forall|j: int, ch: int|
                #![trigger next@[3 * j + ch]]
                0 <= j < i && 0 <= ch < 3 ==> if inside@[j] == 0 {
                    next@[3 * j + ch] == field@[3 * j + ch]
                } else {
                    average.ensures(
                        (
                            field@[3 * heard(source@, inside@, j, left(w, j)) + ch],
                            field@[3 * heard(source@, inside@, j, right(w, j)) + ch],
                            field@[3 * heard(source@, inside@, j, above(w, j)) + ch],
                            field@[3 * heard(source@, inside@, j, below(w, h, j)) + ch],
                        ),
                        next@[3 * j + ch],
                    )
                },
        decreases n - i,
    {
        if inside[i] == 0 {
            next.push(field[3 * i]);
            next.push(field[3 * i + 1]);
            next.push(field[3 * i + 2]);
        } else {
            proof {
                lemma_neighbours(w, h, i as int);
                crate::grid::lemma_coordinates(i as int, w, h);
                assert(i / width > 0 ==> i >= width) by (nonlinear_arith)
                    requires
                        0 < width,
                        0 <= i,
                ;
            }
            let l: usize = hear(source, inside, i, if i % width > 0 {
                i - 1
            } else {
                i
            });
            let r: usize = hear(source, inside, i, if i % width + 1 < width {
                i + 1
            } else {
                i
            });
            let u: usize = hear(source, inside, i, if i / width > 0 {
                i - width
            } else {
                i
            });
            let d: usize = hear(source, inside, i, if i / width + 1 < height {
                i + width
            } else {
                i
            });
            next.push(average(field[3 * l], field[3 * r], field[3 * u], field[3 * d]));
            next.push(
                average(field[3 * l + 1], field[3 * r + 1], field[3 * u + 1], field[3 * d + 1]),
            );
            next.push(
                average(field[3 * l + 2], field[3 * r + 2], field[3 * u + 2], field[3 * d + 2]),
            );
        }
        i = i + 1;
    }
    next
}

/// The differences on the boundary, with zero elsewhere, and the measured
/// values of each channel.
fn measure<D: Fn(u8, u8) -> Scalar>(
    dest: &[u8],
    source: &[u8],
    inside: &[u8],
    n: usize,
    difference: &D,
) -> (found: (Vec<Scalar>, Vec<Scalar>, Vec<Scalar>, Vec<Scalar>))
    requires
        covers(dest@, source@, inside@, n as int),
        forall|a: u8, b: u8| #[trigger] difference.requires((a, b)),
    ensures
        found.0@.len() == 3 * n,
        found.1@ == measurements(found.0@, source@, inside@, 0, n as nat),
        found.2@ == measurements(found.0@, source@, inside@, 1, n as nat),
        found.3@ == measurements(found.0@, source@, inside@, 2, n as nat),
        forall|i: int, ch: int|
            #![trigger found.0@[3 * i + ch]]
            0 <= i < n && 0 <= ch < 3 ==> if measured(source@, inside@, i) {
                difference.ensures(
                    (dest@[4 * i + ch], source@[4 * i + ch]),
                    found.0@[3 * i + ch],
                )
            } else {
                found.0@[3 * i + ch] == crate::scalar::zero()
            },
        found.1@.len() > 0 <==> exists|i: int|
            0 <= i < n && #[trigger] measured(source@, inside@, i),
{
    let (dl, sl): (usize, usize) = (dest.len(), source.len());
    let mut field: Vec<Scalar> = Vec::new();
    let mut r: Vec<Scalar> = Vec::new();
    let mut g: Vec<Scalar> = Vec::new();
    let mut b: Vec<Scalar> = Vec::new();
    let mut i: usize = 0;
    while i < n
        invariant
            covers(dest@, source@, inside@, n as int),
            dl == dest@.len(),
            sl == source@.len(),
            i <= n,
            forall|a: u8, b: u8| #[trigger] difference.requires((a, b)),
            field@.len() == 3 * i,
            r@ == measurements(field@, source@, inside@, 0, i as nat),
            g@ == measurements(field@, source@, inside@, 1, i as nat),
            b@ == measurements(field@, source@, inside@, 2, i as nat),
            forall|j: int, ch: int|
                #![trigger field@[3 * j + ch]]
                0 <= j < i && 0 <= ch < 3 ==> if measured(source@, inside@, j) {
                    difference.ensures(
                        (dest@[4 * j + ch], source@[4 * j + ch]),
                        field@[3 * j + ch],
                    )
                } else {
                    field@[3 * j + ch] == crate::scalar::zero()
                },
            r@.len() > 0 <==> exists|j: int| 0 <= j < i && #[trigger] measured(source@, inside@, j),
        decreases n - i,
    {
        let ghost before = field@;
        if inside[i] == 0 && source[4 * i + 3] != 0 {
            let d0: Scalar = difference(dest[4 * i], source[4 * i]);
            let d1: Scalar = difference(dest[4 * i + 1], source[4 * i + 1]);
            let d2: Scalar = difference(dest[4 * i + 2], source[4 * i + 2]);
            field.push(d0);
            field.push(d1);
            field.push(d2);
            r.push(d0);
            g.push(d1);
            b.push(d2);
        } else {
            field.push(Scalar { bits: ZERO });
            field.push(Scalar { bits: ZERO });
            field.push(Scalar { bits: ZERO });
        }
        proof {
            lemma_same_measurements(before, field@, source@, inside@, 0, i as nat);
            lemma_same_measurements(before, field@, source@, inside@, 1, i as nat);
            lemma_same_measurements(before, field@, source@, inside@, 2, i as nat);
            assert(forall|k: int| 0 <= k < 3 * i ==> #[trigger] field@[k] == before[k]);
            assert(measured(source@, inside@, i as int) == (inside@[i as int] == 0 && source@[4 * i
                + 3] != 0));
        }
        i = i + 1;
    }
    (field, r, g, b)
}

proof fn lemma_same_measurements(
    a: Seq<Scalar>,
    b: Seq<Scalar>,
    source: Seq<u8>,
    inside: Seq<u8>,
    ch: int,
    n: nat,
)
    requires
        0 <= ch < 3,
        a.len() >= 3 * n,
        b.len() >= 3 * n,
        forall|i: int|
            0 <= i < n && measured(source, inside, i) ==> #[trigger] a[3 * i + ch] == b[3 * i + ch],
    ensures
        measurements(a, source, inside, ch, n) == measurements(b, source, inside, ch, n),
    decreases n,
{
    if n > 0 {
        lemma_same_measurements(a, b, source, inside, ch, (n - 1) as nat);
        if measured(source, inside, n - 1) {
            assert(a[3 * (n - 1) + ch] == b[3 * (n - 1) + ch]);
        }
    }
}

/// Solve for the healing correction over one dab window. `dest` and `source`
/// are straight RGBA8; `inside` is non-zero where the dab covers. The result
/// has three numbers per pixel. `None` where there is no boundary to
/// interpolate from: no correction is invented.
pub fn correction_field<
    D: Fn(u8, u8) -> Scalar,
    M: Fn(&Vec<Scalar>) -> Scalar,
    A: Fn(Scalar, Scalar, Scalar, Scalar) -> Scalar,
>(
    dest: &[u8],
    source: &[u8],
    inside: &[u8],
    width: usize,
    height: usize,
    difference: &D,
    mean: &M,
    average: &A,
) -> (field: Option<Vec<Scalar>>)
    requires
        forall|a: u8, b: u8| #[trigger] difference.requires((a, b)),
        forall|v: Vec<Scalar>| v@.len() > 0 ==> #[trigger] mean.requires((&v,)),
        forall|a: Scalar, b: Scalar, c: Scalar, d: Scalar| #[trigger]
            average.requires((a, b, c, d)),
    ensures
        field is Some <==> solvable(dest@, source@, inside@, width * height),
        field matches Some(f) ==> f@.len() == 3 * (width * height) && heals(
            *difference,
            *mean,
            *average,
            dest@,
            source@,
            inside@,
            width as int,
            height as int,
            f@,
        ),
{
    let ghost (w, h) = (width as int, height as int);
    proof {
        assert(0 <= width * height <= u128::MAX) by (nonlinear_arith)
            requires
                0 <= width < 0x1_0000_0000_0000_0000,
                0 <= height < 0x1_0000_0000_0000_0000,
        ;
    }
    let cells: u128 = width as u128 * height as u128;
    if ((dest.len() / 4) as u128) < cells || ((source.len() / 4) as u128) < cells || (
    inside.len() as u128) < cells {
        return None;
    }
    let (dl, il): (usize, usize) = (dest.len(), inside.len());
    let n: usize = width * height;
    let (mut field, r, g, b): (Vec<Scalar>, Vec<Scalar>, Vec<Scalar>, Vec<Scalar>) = measure(
        dest,
        source,
        inside,
        n,
        difference,
    );
    if r.len() == 0 {
        return None;
    }
    let ghost field0 = field@;
    proof {
        lemma_lengths(field0, source@, inside@, n as nat);
        assert(0 < width) by (nonlinear_arith)
            requires
                0 < width * height,
                0 <= width,
        ;
    }
    let means: [Scalar; 3] = [mean(&r), mean(&g), mean(&b)];
    let mut i: usize = 0;
    while i < n
        invariant
            n == w * h,
            field@.len() == 3 * n,
            field0.len() == 3 * n,
            inside@.len() >= n,
            i <= n,
            forall|j: int, ch: int|
                #![trigger field@[3 * j + ch]]
                0 <= j < n && 0 <= ch < 3 ==> field@[3 * j + ch] == (if j < i && inside@[j] != 0 {
                    means@[ch]
                } else {
                    field0[3 * j + ch]
                }),
        decreases n - i,
    {
        let ghost before = field@;
        let len: usize = field.len();
        if inside[i] != 0 {
            field[3 * i] = means[0];
            field[3 * i + 1] = means[1];
            field[3 * i + 2] = means[2];
        }
        i = i + 1;
        proof {
            assert forall|j: int, ch: int|
                #![trigger field@[3 * j + ch]]
                0 <= j < n && 0 <= ch < 3 implies field@[3 * j + ch] == (if j < i && inside@[j]
                != 0 {
                means@[ch]
            } else {
                field0[3 * j + ch]
            }) by {
                assert(before[3 * j + ch] == before[3 * j + ch]);
            }
        }
    }
    proof {
        assert forall|ch: int| 0 <= ch < 3 implies #[trigger] measurements(
            field@,
            source@,
            inside@,
            ch,
            n as nat,
        ) == measurements(field0, source@, inside@, ch, n as nat) by {
            assert forall|i: int| 0 <= i < n && measured(source@, inside@, i) implies #[trigger]
            field@[3 * i + ch] == field0[3 * i + ch] by {}
            lemma_same_measurements(field@, field0, source@, inside@, ch, n as nat);
        }
        assert(r@ == measurements(field0, source@, inside@, 0, n as nat));
        assert(is_mean(*mean, measurements(field@, source@, inside@, 0, n as nat), means@[0]));
        assert(is_mean(*mean, measurements(field@, source@, inside@, 1, n as nat), means@[1]));
        assert(is_mean(*mean, measurements(field@, source@, inside@, 2, n as nat), means@[2]));
        assert forall|i: int, ch: int|
            #![trigger field@[3 * i + ch]]
            0 <= i < n && 0 <= ch < 3 implies {
            &&& measured(source@, inside@, i) ==> difference.ensures(
                (dest@[4 * i + ch], source@[4 * i + ch]),
                field@[3 * i + ch],
            )
            &&& inside@[i] == 0 && !measured(source@, inside@, i) ==> field@[3 * i + ch]
                == crate::scalar::zero()
            &&& inside@[i] != 0 ==> is_mean(
                *mean,
                measurements(field@, source@, inside@, ch, n as nat),
                field@[3 * i + ch],
            )
        } by {
            assert(field0[3 * i + ch] == field0[3 * i + ch]);
            assert(ch == 0 || ch == 1 || ch == 2);
        }
        assert(started(*difference, *mean, dest@, source@, inside@, n as nat, field@));
    }
    let ghost start = field@;
    let ghost mut fields: Seq<Seq<Scalar>> = seq![field@];
    let mut k: usize = 0;
    while k < SWEEPS
        invariant
            w == width,
            h == height,
            0 < width,
            n == w * h,
            field@.len() == 3 * n,
            source@.len() >= 4 * n,
            inside@.len() >= n,
            k <= SWEEPS,
            fields.len() == k + 1,
            fields[0] == start,
            fields[k as int] == field@,
            sweeps_through(*average, source@, inside@, w, h, fields),
            forall|a: Scalar, b: Scalar, c: Scalar, d: Scalar| #[trigger]
                average.requires((a, b, c, d)),
        decreases SWEEPS - k,
    {
        let next: Vec<Scalar> = sweep(
            &field,
            source,
            inside,
            width,
            height,
            average,
        );
        proof {
            let longer = fields.push(next@);
            assert forall|j: int|
                #![trigger longer[j]]
                0 < j < longer.len() implies swept(
                *average,
                source@,
                inside@,
                w,
                h,
                longer[j - 1],
                longer[j],
            ) by {
                if j < fields.len() {
                    assert(longer[j] == fields[j] && longer[j - 1] == fields[j - 1]);
                } else {
                    assert(longer[j - 1] == field@);
                }
            }
            fields = longer;
        }
        field = next;
        k = k + 1;
    }
    Some(field)
}

proof fn lemma_lengths(field: Seq<Scalar>, source: Seq<u8>, inside: Seq<u8>, n: nat)
    ensures
        measurements(field, source, inside, 0, n).len() == measurements(
            field,
            source,
            inside,
            1,
            n,
        ).len(),
        measurements(field, source, inside, 0, n).len() == measurements(
            field,
            source,
            inside,
            2,
            n,
        ).len(),
    decreases n,
{
    if n > 0 {
        lemma_lengths(field, source, inside, (n - 1) as nat);
    }
}

/// The boundary is the condition of the solve: no number of sweeps moves it.
pub proof fn sweeps_keep_the_boundary<A: Fn(Scalar, Scalar, Scalar, Scalar) -> Scalar>(
    average: A,
    source: Seq<u8>,
    inside: Seq<u8>,
    w: int,
    h: int,
    fields: Seq<Seq<Scalar>>,
    k: int,
    i: int,
    ch: int,
)
    requires
        sweeps_through(average, source, inside, w, h, fields),
        0 <= k < fields.len(),
        0 <= i < w * h,
        0 <= ch < 3,
        inside[i] == 0,
    ensures
        fields[k][3 * i + ch] == fields[0][3 * i + ch],
    decreases k,
{
    if k > 0 {
        sweeps_keep_the_boundary(average, source, inside, w, h, fields, k - 1, i, ch);
        assert(fields[k] == fields[k]);
        assert(fields[k][3 * i + ch] == fields[k - 1][3 * i + ch]);
    }
}

/// A uniform mismatch is corrected by that very constant: where the average of
/// four equal numbers is that number, a field that starts uniform stays so.
/// Pixels that are transparent in the source do not count, whatever they hold.
pub proof fn a_uniform_field_stays_uniform<A: Fn(Scalar, Scalar, Scalar, Scalar) -> Scalar>(
    average: A,
    source: Seq<u8>,
    inside: Seq<u8>,
    w: int,
    h: int,
    fields: Seq<Seq<Scalar>>,
    k: int,
    ch: int,
    v: Scalar,
)
    requires
        0 < w,
        sweeps_through(average, source, inside, w, h, fields),
        0 <= k < fields.len(),
        0 <= ch < 3,
        forall|r: Scalar| #[trigger] average.ensures((v, v, v, v), r) ==> r == v,
        forall|i: int|
            0 <= i < w * h && !void(source, inside, i) ==> #[trigger] fields[0][3 * i + ch] == v,
    ensures
        forall|i: int|
            0 <= i < w * h && !void(source, inside, i) ==> #[trigger] fields[k][3 * i + ch] == v,
    decreases k,
{
    if k > 0 {
        a_uniform_field_stays_uniform(average, source, inside, w, h, fields, k - 1, ch, v);
        assert forall|i: int|
            0 <= i < w * h && !void(source, inside, i) implies #[trigger] fields[k][3 * i + ch]
            == v by {
            lemma_neighbours(w, h, i);
            let a = fields[k - 1];
            assert(a[3 * i + ch] == v);
            assert(a[3 * heard(source, inside, i, left(w, i)) + ch] == v);
            assert(a[3 * heard(source, inside, i, right(w, i)) + ch] == v);
            assert(a[3 * heard(source, inside, i, above(w, i)) + ch] == v);
            assert(a[3 * heard(source, inside, i, below(w, h, i)) + ch] == v);
            assert(a[3 * i + ch] == v);
        }
    }
}

/// Number `c` of a field, or zero past its end.
pub open spec fn number_at(field: Seq<Scalar>, c: int) -> Scalar {
    if c < field.len() {
        field[c]
    } else {
        crate::scalar::zero()
    }
}

/// Whether bytes are a correction field as a straight half-precision window:
/// three numbers and a zero alpha per texel, each as two bytes, the lower one
/// first. Healing shifts tone, never transparency.
pub open spec fn packs<H: Fn(Scalar) -> u16>(
    half: H,
    field: Seq<Scalar>,
    texels: int,
    out: Seq<u8>,
) -> bool {
    &&& out.len() == 8 * texels
    &&& forall|i: int, ch: int|
        #![trigger out[8 * i + 2 * ch]]
        0 <= i < texels && 0 <= ch < 3 ==> half.ensures(
            (number_at(field, 3 * i + ch),),
            (out[8 * i + 2 * ch] + 256 * out[8 * i + 2 * ch + 1]) as u16,
        )
    &&& forall|i: int|
        #![trigger out[8 * i + 6]]
        0 <= i < texels ==> out[8 * i + 6] == 0 && out[8 * i + 7] == 0
}

/// Pack a correction field as a straight half-precision window.
pub fn field_to_f16<H: Fn(Scalar) -> u16>(field: &[Scalar], texels: usize, half: &H) -> (out: Vec<
    u8,
>)
    requires
        texels * 8 <= usize::MAX,
        forall|s: Scalar| #[trigger] half.requires((s,)),
    ensures
        packs(*half, field@, texels as int, out@),
{
    let mut out: Vec<u8> = Vec::new();
    let mut i: usize = 0;
    while i < texels
        invariant
            i <= texels,
            texels * 8 <= usize::MAX,
            forall|s: Scalar| #[trigger] half.requires((s,)),
            out@.len() == 8 * i,
            forall|j: int, ch: int|
                #![trigger out@[8 * j + 2 * ch]]
                0 <= j < i && 0 <= ch < 3 ==> half.ensures(
                    (number_at(field@, 3 * j + ch),),
                    (out@[8 * j + 2 * ch] + 256 * out@[8 * j + 2 * ch + 1]) as u16,
                ),
            forall|j: int|
                #![trigger out@[8 * j + 6]]
                0 <= j < i ==> out@[8 * j + 6] == 0 && out@[8 * j + 7] == 0,
        decreases texels - i,
    {
        let ghost before = out@;
        let mut ch: usize = 0;
        while ch < 3
            invariant
                i < texels,
                texels * 8 <= usize::MAX,
                ch <= 3,
                before.len() == 8 * i,
                out@.len() == 8 * i + 2 * ch,
                forall|s: Scalar| #[trigger] half.requires((s,)),
                forall|k: int| 0 <= k < before.len() ==> #[trigger] out@[k] == before[k],
                forall|c: int|
                    #![trigger out@[8 * i + 2 * c]]
                    0 <= c < ch ==> half.ensures(
                        (number_at(field@, 3 * i + c),),
                        (out@[8 * i + 2 * c] + 256 * out@[8 * i + 2 * c + 1]) as u16,
                    ),
            decreases 3 - ch,
        {
            let at: usize = i * 3 + ch;
            let value: Scalar = if at < field.len() {
                field[at]
            } else {
                Scalar { bits: ZERO }
            };
            let h: u16 = half(value);
            out.push((h % 256) as u8);
            out.push((h / 256) as u8);
            ch = ch + 1;
        }
        out.push(0);
        out.push(0);
        i = i + 1;
        proof {
            assert forall|j: int, ch: int|
                #![trigger out@[8 * j + 2 * ch]]
                0 <= j < i && 0 <= ch < 3 implies half.ensures(
                (number_at(field@, 3 * j + ch),),
                (out@[8 * j + 2 * ch] + 256 * out@[8 * j + 2 * ch + 1]) as u16,
            ) by {
                if j < i - 1 {
                    assert(out@[8 * j + 2 * ch] == before[8 * j + 2 * ch]);
                    assert(out@[8 * j + 2 * ch + 1] == before[8 * j + 2 * ch + 1]);
                }
            }
            assert forall|j: int| #![trigger out@[8 * j + 6]] 0 <= j < i implies out@[8 * j + 6]
                == 0 && out@[8 * j + 7] == 0 by {
                if j < i - 1 {
                    assert(out@[8 * j + 6] == before[8 * j + 6]);
                    assert(out@[8 * j + 7] == before[8 * j + 7]);
                }
            }
        }
    }
    out
}

/// A cell off the rim, whose neighbours all tell something, becomes the average
/// of the four cells around it: one column to the left, one to the right, one
/// row up and one row down, in its own channel.
pub proof fn a_cell_is_averaged_from_the_four_around_it<
    A: Fn(Scalar, Scalar, Scalar, Scalar) -> Scalar,
>(
    average: A,
    source: Seq<u8>,
    inside: Seq<u8>,
    w: int,
    h: int,
    a: Seq<Scalar>,
    b: Seq<Scalar>,
    x: int,
    y: int,
    ch: int,
)
    requires
        swept(average, source, inside, w, h, a, b),
        0 < x < w - 1,
        0 < y < h - 1,
        0 <= ch < 3,
        inside[y * w + x] != 0,
        inside[y * w + x - 1] != 0 || source[4 * (y * w + x - 1) + 3] != 0,
        inside[y * w + x + 1] != 0 || source[4 * (y * w + x + 1) + 3] != 0,
        inside[(y - 1) * w + x] != 0 || source[4 * ((y - 1) * w + x) + 3] != 0,
        inside[(y + 1) * w + x] != 0 || source[4 * ((y + 1) * w + x) + 3] != 0,
    ensures
        average.ensures(
            (
                a[3 * (y * w + (x - 1)) + ch],
                a[3 * (y * w + (x + 1)) + ch],
                a[3 * ((y - 1) * w + x) + ch],
                a[3 * ((y + 1) * w + x) + ch],
            ),
            b[3 * (y * w + x) + ch],
        ),
{
    let i = y * w + x;
    crate::grid::lemma_pixel_index(x, y, w, h);
    assert((y - 1) * w == y * w - w) by (nonlinear_arith);
    assert((y + 1) * w == y * w + w) by (nonlinear_arith);
    assert(b[3 * i + ch] == b[3 * i + ch]);
}

/// A neighbour off the window, and one that tells nothing, is the cell itself:
/// it pulls the cell nowhere.
pub proof fn a_missing_neighbour_is_the_cell_itself<
    A: Fn(Scalar, Scalar, Scalar, Scalar) -> Scalar,
>(
    average: A,
    source: Seq<u8>,
    inside: Seq<u8>,
    w: int,
    h: int,
    a: Seq<Scalar>,
    b: Seq<Scalar>,
    x: int,
    y: int,
    ch: int,
) -> (v: (Scalar, Scalar, Scalar, Scalar))
    requires
        swept(average, source, inside, w, h, a, b),
        0 <= x < w,
        0 <= y < h,
        0 <= ch < 3,
        inside[y * w + x] != 0,
    ensures
        average.ensures(v, b[3 * (y * w + x) + ch]),
        x == 0 || (inside[y * w + x - 1] == 0 && source[4 * (y * w + x - 1) + 3] == 0) ==> v.0
            == a[3 * (y * w + x) + ch],
        x == w - 1 || (inside[y * w + x + 1] == 0 && source[4 * (y * w + x + 1) + 3] == 0) ==> v.1
            == a[3 * (y * w + x) + ch],
        y == 0 || (inside[y * w + x - w] == 0 && source[4 * (y * w + x - w) + 3] == 0) ==> v.2
            == a[3 * (y * w + x) + ch],
        y == h - 1 || (inside[y * w + x + w] == 0 && source[4 * (y * w + x + w) + 3] == 0) ==> v.3
            == a[3 * (y * w + x) + ch],
{
    let i = y * w + x;
    crate::grid::lemma_pixel_index(x, y, w, h);
    assert(b[3 * i + ch] == b[3 * i + ch]);
    (
        a[3 * heard(source, inside, i, left(w, i)) + ch],
        a[3 * heard(source, inside, i, right(w, i)) + ch],
        a[3 * heard(source, inside, i, above(w, i)) + ch],
        a[3 * heard(source, inside, i, below(w, h, i)) + ch],
    )
}

/// A correction that is affine in the column and the row is harmonic: a sweep
/// leaves it as it is, off the rim and away from cells that tell nothing. `value`
/// is the number that a scalar stands for, in some unit, and four times an
/// average is the sum of the four.
pub proof fn an_affine_field_is_a_fixed_point<
    A: Fn(Scalar, Scalar, Scalar, Scalar) -> Scalar,
>(
    average: A,
    value: spec_fn(Scalar) -> int,
    source: Seq<u8>,
    inside: Seq<u8>,
    w: int,
    h: int,
    a: Seq<Scalar>,
    b: Seq<Scalar>,
    across: int,
    down: int,
    corner: int,
    x: int,
    y: int,
    ch: int,
)
    requires
        swept(average, source, inside, w, h, a, b),
        forall|p: Scalar, q: Scalar, r: Scalar, s: Scalar, m: Scalar| #[trigger]
            average.ensures((p, q, r, s), m) ==> 4 * value(m) == value(p) + value(q) + value(r)
                + value(s),
        0 < x < w - 1,
        0 < y < h - 1,
        0 <= ch < 3,
        inside[y * w + x] != 0,
        forall|i: int, j: int|
            0 <= i < w && 0 <= j < h ==> value(#[trigger] a[3 * (j * w + i) + ch]) == across * i
                + down * j + corner,
        forall|i: int|
            #![trigger inside[i]]
            0 <= i < w * h ==> inside[i] != 0 || source[4 * i + 3] != 0,
    ensures
        value(b[3 * (y * w + x) + ch]) == across * x + down * y + corner,
{
    crate::grid::lemma_pixel_index(x, y, w, h);
    crate::grid::lemma_pixel_index(x - 1, y, w, h);
    crate::grid::lemma_pixel_index(x + 1, y, w, h);
    crate::grid::lemma_pixel_index(x, y - 1, w, h);
    crate::grid::lemma_pixel_index(x, y + 1, w, h);
    assert(inside[y * w + (x - 1)] != 0 || source[4 * (y * w + (x - 1)) + 3] != 0);
    assert(inside[y * w + (x + 1)] != 0 || source[4 * (y * w + (x + 1)) + 3] != 0);
    assert(inside[(y - 1) * w + x] != 0 || source[4 * ((y - 1) * w + x) + 3] != 0);
    assert(inside[(y + 1) * w + x] != 0 || source[4 * ((y + 1) * w + x) + 3] != 0);
    a_cell_is_averaged_from_the_four_around_it(average, source, inside, w, h, a, b, x, y, ch);
    let (l, r) = (a[3 * (y * w + (x - 1)) + ch], a[3 * (y * w + (x + 1)) + ch]);
    let (u, d) = (a[3 * ((y - 1) * w + x) + ch], a[3 * ((y + 1) * w + x) + ch]);
    assert(value(l) == across * (x - 1) + down * y + corner);
    assert(value(r) == across * (x + 1) + down * y + corner);
    assert(value(u) == across * x + down * (y - 1) + corner);
    assert(value(d) == across * x + down * (y + 1) + corner);
    assert(across * (x - 1) + across * (x + 1) == 2 * (across * x)) by (nonlinear_arith);
    assert(down * (y - 1) + down * (y + 1) == 2 * (down * y)) by (nonlinear_arith);
}

/// On the boundary the solved correction is the destination less the source, pixel
/// for pixel and channel for channel, so that the healed patch meets its
/// surroundings without a seam; where the source is transparent there is none.
pub proof fn the_correction_meets_the_boundary<
    D: Fn(u8, u8) -> Scalar,
    M: Fn(&Vec<Scalar>) -> Scalar,
    A: Fn(Scalar, Scalar, Scalar, Scalar) -> Scalar,
>(
    difference: D,
    mean: M,
    average: A,
    dest: Seq<u8>,
    source: Seq<u8>,
    inside: Seq<u8>,
    w: int,
    h: int,
    field: Seq<Scalar>,
    i: int,
    ch: int,
)
    requires
        heals(difference, mean, average, dest, source, inside, w, h, field),
        0 <= i < w * h,
        0 <= ch < 3,
        inside[i] == 0,
    ensures
        source[4 * i + 3] != 0 ==> difference.ensures(
            (dest[4 * i + ch], source[4 * i + ch]),
            field[3 * i + ch],
        ),
        source[4 * i + 3] == 0 ==> field[3 * i + ch] == (Scalar { bits: 0 }),
{
    let fields = choose|fields: Seq<Seq<Scalar>>|
        {
            &&& fields.len() == SWEEPS + 1
            &&& started(difference, mean, dest, source, inside, (w * h) as nat, fields[0])
            &&& #[trigger] sweeps_through(average, source, inside, w, h, fields)
            &&& fields[SWEEPS as int] == field
        };
    sweeps_keep_the_boundary(average, source, inside, w, h, fields, SWEEPS as int, i, ch);
    assert(fields[0][3 * i + ch] == fields[0][3 * i + ch]);
}

proof fn lemma_measurements_are_uniform(
    field: Seq<Scalar>,
    source: Seq<u8>,
    inside: Seq<u8>,
    ch: int,
    n: nat,
    v: Scalar,
)
    requires
        forall|i: int|
            0 <= i < n && inside[i] == 0 && source[4 * i + 3] != 0 ==> #[trigger] field[3 * i + ch]
                == v,
    ensures
        forall|k: int|
            0 <= k < measurements(field, source, inside, ch, n).len() ==> #[trigger] measurements(
                field,
                source,
                inside,
                ch,
                n,
            )[k] == v,
        (exists|i: int| 0 <= i < n && #[trigger] measured(source, inside, i)) ==> measurements(
            field,
            source,
            inside,
            ch,
            n,
        ).len() > 0,
    decreases n,
{
    if n > 0 {
        lemma_measurements_are_uniform(field, source, inside, ch, (n - 1) as nat, v);
        let rest = measurements(field, source, inside, ch, (n - 1) as nat);
        let all = measurements(field, source, inside, ch, n);
        if measured(source, inside, n - 1) {
            assert(field[3 * (n - 1) + ch] == v);
            assert(all == rest.push(v));
        }
        assert forall|k: int| 0 <= k < all.len() implies #[trigger] all[k] == v by {
            if k < rest.len() {
                assert(rest[k] == v);
            }
        }
    }
}

/// Where destination and source differ by one and the same amount all along the
/// boundary, that amount is the correction everywhere: under the dab as well as
/// beside it, whatever was there before.
pub proof fn a_uniform_mismatch_is_healed_uniformly<
    D: Fn(u8, u8) -> Scalar,
    M: Fn(&Vec<Scalar>) -> Scalar,
    A: Fn(Scalar, Scalar, Scalar, Scalar) -> Scalar,
>(
    difference: D,
    mean: M,
    average: A,
    dest: Seq<u8>,
    source: Seq<u8>,
    inside: Seq<u8>,
    w: int,
    h: int,
    field: Seq<Scalar>,
    ch: int,
    v: Scalar,
    i: int,
)
    requires
        0 < w,
        heals(difference, mean, average, dest, source, inside, w, h, field),
        0 <= ch < 3,
        forall|j: int, d: Scalar|
            #![trigger difference.ensures((dest[4 * j + ch], source[4 * j + ch]), d)]
            0 <= j < w * h && inside[j] == 0 && source[4 * j + 3] != 0 && difference.ensures(
                (dest[4 * j + ch], source[4 * j + ch]),
                d,
            ) ==> d == v,
        exists|j: int| 0 <= j < w * h && inside[j] == 0 && #[trigger] source[4 * j + 3] != 0,
        forall|list: Vec<Scalar>, m: Scalar|
            #![trigger mean.ensures((&list,), m)]
            list@.len() > 0 && (forall|k: int| 0 <= k < list@.len() ==> list@[k] == v)
                && mean.ensures((&list,), m) ==> m == v,
        forall|m: Scalar| #[trigger] average.ensures((v, v, v, v), m) ==> m == v,
        0 <= i < w * h,
        inside[i] != 0 || source[4 * i + 3] != 0,
    ensures
        field[3 * i + ch] == v,
{
    let n = (w * h) as nat;
    let fields = choose|fields: Seq<Seq<Scalar>>|
        {
            &&& fields.len() == SWEEPS + 1
            &&& started(difference, mean, dest, source, inside, (w * h) as nat, fields[0])
            &&& #[trigger] sweeps_through(average, source, inside, w, h, fields)
            &&& fields[SWEEPS as int] == field
        };
    let f = fields[0];
    assert forall|j: int|
        0 <= j < n && inside[j] == 0 && source[4 * j + 3] != 0 implies #[trigger] f[3 * j + ch]
        == v by {
        assert(measured(source, inside, j));
    }
    lemma_measurements_are_uniform(f, source, inside, ch, n, v);
    let m = choose|j: int| 0 <= j < w * h && inside[j] == 0 && #[trigger] source[4 * j + 3] != 0;
    assert(measured(source, inside, m));
    assert forall|j: int| 0 <= j < w * h && !void(source, inside, j) implies #[trigger] f[3 * j
        + ch] == v by {
        if inside[j] != 0 {
            assert(is_mean(mean, measurements(f, source, inside, ch, n), f[3 * j + ch]));
            let list = choose|list: Vec<Scalar>| #[trigger]
                list@ == measurements(f, source, inside, ch, n) && mean.ensures(
                    (&list,),
                    f[3 * j + ch],
                );
            assert(mean.ensures((&list,), f[3 * j + ch]));
        }
    }
    a_uniform_field_stays_uniform(
        average,
        source,
        inside,
        w,
        h,
        fields,
        SWEEPS as int,
        ch,
        v,
    );
    assert(!void(source, inside, i));
    assert(fields[SWEEPS as int][3 * i + ch] == v);
}

/// A packed correction reads back: each texel holds the half-precision forms of
/// its own red, green and blue corrections, in this order and the lower byte
/// first, and no correction of its alpha.
pub proof fn a_packed_correction_reads_back<H: Fn(Scalar) -> u16>(
    half: H,
    field: Seq<Scalar>,
    texels: int,
    out: Seq<u8>,
    i: int,
)
    requires
        packs(half, field, texels, out),
        field.len() == 3 * texels,
        0 <= i < texels,
    ensures
        half.ensures((field[3 * i],), (out[8 * i] + 256 * out[8 * i + 1]) as u16),
        half.ensures((field[3 * i + 1],), (out[8 * i + 2] + 256 * out[8 * i + 3]) as u16),
        half.ensures((field[3 * i + 2],), (out[8 * i + 4] + 256 * out[8 * i + 5]) as u16),
        out[8 * i + 6] == 0,
        out[8 * i + 7] == 0,
        out.len() == 8 * texels,
{
    assert(out[8 * i + 2 * 0] == out[8 * i]);
    assert(out[8 * i + 2 * 1] == out[8 * i + 2]);
    assert(out[8 * i + 2 * 2] == out[8 * i + 4]);
}

/// A correction is what sixty-four sweeps make of its start: the boundary where it is
/// measured, and the mean of all that was measured under the dab.
pub proof fn a_correction_is_swept_from_its_start<
    D: Fn(u8, u8) -> Scalar,
    M: Fn(&Vec<Scalar>) -> Scalar,
    A: Fn(Scalar, Scalar, Scalar, Scalar) -> Scalar,
>(
    difference: D,
    mean: M,
    average: A,
    dest: Seq<u8>,
    source: Seq<u8>,
    inside: Seq<u8>,
    w: int,
    h: int,
    field: Seq<Scalar>,
    i: int,
    ch: int,
) -> (fields: Seq<Seq<Scalar>>)
    requires
        heals(difference, mean, average, dest, source, inside, w, h, field),
        0 <= i < w * h,
        0 <= ch < 3,
    ensures
        fields.len() == 65,
        fields[64] == field,
        forall|k: int|
            #![trigger fields[k]]
            0 < k < 65 ==> swept(average, source, inside, w, h, fields[k - 1], fields[k]),
        inside[i] == 0 && source[4 * i + 3] != 0 ==> difference.ensures(
            (dest[4 * i + ch], source[4 * i + ch]),
            fields[0][3 * i + ch],
        ),
        inside[i] != 0 ==> exists|list: Vec<Scalar>|
            #![trigger mean.ensures((&list,), fields[0][3 * i + ch])]
            mean.ensures((&list,), fields[0][3 * i + ch]) && forall|j: int|
                #![trigger fields[0][3 * j + ch]]
                0 <= j < w * h && inside[j] == 0 && source[4 * j + 3] != 0 ==> list@.contains(
                    fields[0][3 * j + ch],
                ),
{
    let fields = choose|fields: Seq<Seq<Scalar>>|
        {
            &&& fields.len() == SWEEPS + 1
            &&& started(difference, mean, dest, source, inside, (w * h) as nat, fields[0])
            &&& #[trigger] sweeps_through(average, source, inside, w, h, fields)
            &&& fields[SWEEPS as int] == field
        };
    let f = fields[0];
    let n = (w * h) as nat;
    assert(f[3 * i + ch] == f[3 * i + ch]);
    if inside[i] != 0 {
        assert(is_mean(mean, measurements(f, source, inside, ch, n), f[3 * i + ch]));
        let list = choose|list: Vec<Scalar>| #[trigger]
            list@ == measurements(f, source, inside, ch, n) && mean.ensures(
                (&list,),
                f[3 * i + ch],
            );
        assert(mean.ensures((&list,), fields[0][3 * i + ch]));
        assert forall|j: int|
            #![trigger fields[0][3 * j + ch]]
            0 <= j < w * h && inside[j] == 0 && source[4 * j + 3] != 0 implies list@.contains(
            fields[0][3 * j + ch],
        ) by {
            lemma_measured_is_heard(f, source, inside, ch, n, j);
        }
    }
    fields
}

proof fn lemma_measured_is_heard(
    field: Seq<Scalar>,
    source: Seq<u8>,
    inside: Seq<u8>,
    ch: int,
    n: nat,
    j: int,
)
    requires
        0 <= j < n,
        measured(source, inside, j),
    ensures
        measurements(field, source, inside, ch, n).contains(field[3 * j + ch]),
    decreases n,
{
    let rest = measurements(field, source, inside, ch, (n - 1) as nat);
    let all = measurements(field, source, inside, ch, n);
    let v = field[3 * j + ch];
    if j == n - 1 {
        assert(all[all.len() - 1] == v);
    } else {
        lemma_measured_is_heard(field, source, inside, ch, (n - 1) as nat, j);
        assert(all[rest.index_of(v)] == v);
    }
}

} // verus!
