//! Rearranging packed pixels: every crop, tile window, orientation and
//! letterbox is one gather, stated as a map from destination pixels back to
//! source pixels.
use vstd::arithmetic::div_mod::*;
use vstd::arithmetic::mul::*;
use vstd::prelude::*;

verus! {

/// The buffer of `n` pixels of `size` bytes whose pixel `p` is the source's
/// pixel `from(p)`, or transparent black where `from(p)` is negative.
pub open spec fn gathered(src: Seq<u8>, size: nat, n: nat, from: spec_fn(int) -> int) -> Seq<u8> {
    Seq::new(
        size * n,
        |i: int|
            if from(i / (size as int)) < 0 {
                0
            } else {
                src[size * from(i / (size as int)) + i % (size as int)]
            },
    )
}

/// A byte index splits into its pixel and its offset in the pixel.
pub proof fn lemma_split(size: int, p: int, k: int)
    requires
        0 < size,
        0 <= k < size,
    ensures
        (size * p + k) / size == p,
        (size * p + k) % size == k,
{
    lemma_mul_is_commutative(size, p);
    lemma_fundamental_div_mod_converse(size * p + k, size, p, k);
}

/// Pixel `p` lies inside a buffer of `n` pixels.
pub proof fn lemma_pixel_fits(size: int, p: int, n: int)
    requires
        0 < size,
        0 <= p < n,
    ensures
        0 <= size * p,
        size * p + size <= size * n,
{
    assert(0 <= size * p && size * p + size <= size * n) by (nonlinear_arith)
        requires
            0 < size,
            0 <= p < n,
    ;
}

/// Byte `k` of pixel `p` of a gathered buffer.
pub proof fn gathered_pixel(
    src: Seq<u8>,
    size: nat,
    n: nat,
    from: spec_fn(int) -> int,
    p: int,
    k: int,
)
    requires
        0 <= p < n,
        0 <= k < size,
    ensures
        0 <= size * p + k < gathered(src, size, n, from).len(),
        gathered(src, size, n, from)[size * p + k] == (if from(p) < 0 {
            0u8
        } else {
            src[size * from(p) + k]
        }),
{
    lemma_pixel_fits(size as int, p, n as int);
    lemma_split(size as int, p, k);
}

/// Gather `n` pixels of `size` bytes out of `src` along `from`.
pub fn gather<F: Fn(usize) -> Option<usize>>(
    src: &[u8],
    size: usize,
    n: usize,
    pick: F,
    from: Ghost<spec_fn(int) -> int>,
) -> (out: Vec<u8>)
    requires
        0 < size,
        size * n <= usize::MAX,
        forall|p: usize| p < n ==> #[trigger] pick.requires((p,)),
        forall|p: usize, r: Option<usize>| #[trigger]
            pick.ensures((p,), r) ==> (match r {
                Some(q) => q == (from@)(p as int),
                None => (from@)(p as int) < 0,
            }),
        forall|p: int|
            0 <= p < n && 0 <= #[trigger] (from@)(p) ==> size * (from@)(p) + size <= src@.len(),
    ensures
        out@ == gathered(src@, size as nat, n as nat, from@),
{
    let ghost goal = gathered(src@, size as nat, n as nat, from@);
    let mut out: Vec<u8> = Vec::new();
    let mut p: usize = 0;
    let len: usize = src.len();
    proof {
        assert(size * 0 == 0) by (nonlinear_arith);
    }
    while p < n
        invariant
            0 < size,
            len == src@.len(),
            p <= n,
            size * n <= usize::MAX,
            goal == gathered(src@, size as nat, n as nat, from@),
            goal.len() == size * n,
            out@.len() == size * p,
            out@ == goal.take(size * p),
            forall|p: usize| p < n ==> #[trigger] pick.requires((p,)),
            forall|p: usize, r: Option<usize>| #[trigger]
                pick.ensures((p,), r) ==> (match r {
                    Some(q) => q == (from@)(p as int),
                    None => (from@)(p as int) < 0,
                }),
            forall|p: int|
                0 <= p < n && 0 <= #[trigger] (from@)(p) ==> size * (from@)(p) + size <= src@.len(),
        decreases n - p,
    {
        let pixel: Option<usize> = pick(p);
        let mut k: usize = 0;
        proof {
            lemma_pixel_fits(size as int, p as int, n as int);
            if pixel is Some {
                let q = pixel->0;
                assert(0 <= size * q) by (nonlinear_arith)
                    requires
                        0 < size,
                        0 <= q,
                ;
            }
        }
        while k < size
            invariant
                0 < size,
                len == src@.len(),
                p < n,
                k <= size,
                size * p + size <= size * n,
                goal == gathered(src@, size as nat, n as nat, from@),
                goal.len() == size * n,
                out@.len() == size * p + k,
                out@ == goal.take(size * p + k),
                match pixel {
                    Some(q) => q == (from@)(p as int) && size * q + size <= len,
                    None => (from@)(p as int) < 0,
                },
            decreases size - k,
        {
            proof {
                gathered_pixel(src@, size as nat, n as nat, from@, p as int, k as int);
            }
            let byte: u8 = match pixel {
                Some(q) => {
                    assert(0 <= size * q) by (nonlinear_arith)
                        requires
                            0 < size,
                            0 <= q,
                    ;
                    src[size * q + k]
                },
                None => 0,
            };
            out.push(byte);
            k = k + 1;
            proof {
                assert(goal.take(size * p + k) =~= goal.take(size * p + k - 1).push(byte));
            }
        }
        p = p + 1;
        proof {
            assert(size * p == size * (p - 1) + size) by (nonlinear_arith);
        }
    }
    proof {
        assert(goal.take(size * n) =~= goal);
    }
    out
}

/// A gather of a gather is one gather along both maps.
pub proof fn gathers_compose(
    src: Seq<u8>,
    size: nat,
    n: nat,
    first: spec_fn(int) -> int,
    m: nat,
    second: spec_fn(int) -> int,
)
    requires
        0 < size,
        forall|p: int| 0 <= p < m ==> 0 <= #[trigger] second(p) < n,
    ensures
        gathered(gathered(src, size, n, first), size, m, second) == gathered(
            src,
            size,
            m,
            |p: int| first(second(p)),
        ),
{
    let inner = gathered(src, size, n, first);
    let both = |p: int| first(second(p));
    let left = gathered(inner, size, m, second);
    let right = gathered(src, size, m, both);
    assert forall|i: int| 0 <= i < size * m implies left[i] == right[i] by {
        let p = i / (size as int);
        let k = i % (size as int);
        lemma_fundamental_div_mod(i, size as int);
        assert(0 <= p < m) by (nonlinear_arith)
            requires
                0 < size,
                0 <= i < size * m,
                p == i / (size as int),
        ;
        gathered_pixel(inner, size, m, second, p, k);
        gathered_pixel(src, size, m, both, p, k);
        gathered_pixel(src, size, n, first, second(p), k);
    }
    assert(left =~= right);
}

/// A gather along the identity is the buffer itself.
pub proof fn gather_identity(src: Seq<u8>, size: nat, n: nat, from: spec_fn(int) -> int)
    requires
        0 < size,
        src.len() == size * n,
        forall|p: int| 0 <= p < n ==> #[trigger] from(p) == p,
    ensures
        gathered(src, size, n, from) == src,
{
    let left = gathered(src, size, n, from);
    assert forall|i: int| 0 <= i < size * n implies left[i] == src[i] by {
        let p = i / (size as int);
        let k = i % (size as int);
        lemma_fundamental_div_mod(i, size as int);
        assert(0 <= p < n) by (nonlinear_arith)
            requires
                0 < size,
                0 <= i < size * n,
                p == i / (size as int),
        ;
        gathered_pixel(src, size, n, from, p, k);
        assert(from(p) == p);
    }
    assert(left =~= src);
}

/// Two maps that agree on every pixel gather the same buffer.
pub proof fn gather_agrees(
    src: Seq<u8>,
    size: nat,
    n: nat,
    a: spec_fn(int) -> int,
    b: spec_fn(int) -> int,
)
    requires
        0 < size,
        forall|p: int| 0 <= p < n ==> #[trigger] a(p) == b(p),
    ensures
        gathered(src, size, n, a) == gathered(src, size, n, b),
{
    let left = gathered(src, size, n, a);
    let right = gathered(src, size, n, b);
    assert forall|i: int| 0 <= i < size * n implies left[i] == right[i] by {
        let p = i / (size as int);
        lemma_fundamental_div_mod(i, size as int);
        assert(0 <= p < n) by (nonlinear_arith)
            requires
                0 < size,
                0 <= i < size * n,
                p == i / (size as int),
        ;
        assert(a(p) == b(p));
    }
    assert(left =~= right);
}

/// The coordinates of pixel `p` in rows of `w` pixels, and back.
pub proof fn lemma_coordinates(p: int, w: int, h: int)
    requires
        0 < w,
        0 <= p < w * h,
    ensures
        0 <= p % w < w,
        0 <= p / w < h,
        (p / w) * w + p % w == p,
{
    lemma_fundamental_div_mod(p, w);
    lemma_mul_is_commutative(w, p / w);
    assert(0 <= p / w < h) by (nonlinear_arith)
        requires
            0 < w,
            0 <= p < w * h,
    ;
}

/// The pixel at column `x` of row `y` in rows of `w` pixels.
pub proof fn lemma_pixel_index(x: int, y: int, w: int, h: int)
    requires
        0 <= x < w,
        0 <= y < h,
    ensures
        0 <= y * w + x < w * h,
        (y * w + x) / w == y,
        (y * w + x) % w == x,
{
    assert(0 <= y * w && y * w + x < w * h) by (nonlinear_arith)
        requires
            0 <= x < w,
            0 <= y < h,
    ;
    lemma_fundamental_div_mod_converse(y * w + x, w, y, x);
}

} // verus!
