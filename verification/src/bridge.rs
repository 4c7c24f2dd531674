//! The 8-bit ↔ half-float bridge of the working windows.
//!
//! Working windows hold one IEEE 754 binary16 number per sample, little-endian.
//! A byte `n` enters as the number nearest to `n / 255` and leaves as the byte
//! nearest to 255 times the number, clamped. The trip there and back is the
//! identity on every byte.
use vstd::arithmetic::div_mod::*;
use vstd::arithmetic::power2::*;
use vstd::prelude::*;

verus! {

/// The binary16 pattern nearest to `n / 255`: the exponent that brings the
/// quotient into `[1, 2)` and the rounded 11-bit significand.
pub open spec fn byte_half(n: u8) -> u16 {
    if n == 0 {
        0
    } else {
        let e = crate::scalar::doublings(n as nat);
        ((15 - e) * 1024 + crate::scalar::nearest(n * pow2(e) * 1024, 255) - 1024) as u16
    }
}

/// The byte nearest to 255 times a binary16 number, ties up: a NaN and
/// everything up to zero give 0, everything from one up gives 255.
pub open spec fn half_byte(pattern: u16) -> u8 {
    if pattern >= 0x8000 || pattern > 0x7c00 {
        0
    } else if pattern >= 0x3c00 {
        255
    } else if pattern < 1024 {
        // A subnormal number is below 2^-14.
        0
    } else {
        let exponent = (pattern / 1024) as nat;
        let significand = 1024 + pattern % 1024;
        ((significand * 510 + pow2((25 - exponent) as nat)) / (2 * pow2((25 - exponent) as nat)) as int) as u8
    }
}

fn half_of_byte(n: u8) -> (pattern: u16)
    ensures
        pattern == byte_half(n),
{
    if n == 0 {
        return 0;
    }
    let ghost total = crate::scalar::doublings(n as nat);
    let mut k: u64 = n as u64;
    let mut e: u64 = 0;
    proof {
        lemma2_to64();
        crate::scalar::doublings_normalise(n as nat);
    }
    while k < 255
        invariant
            1 <= k < 510,
            e + crate::scalar::doublings(k as nat) == total,
            k == n * pow2(e as nat),
            total <= 8,
        decreases 510 - k,
    {
        proof {
            lemma_pow2_unfold((e + 1) as nat);
            assert(n * pow2((e + 1) as nat) == 2 * (n * pow2(e as nat))) by (nonlinear_arith)
                requires
                    pow2((e + 1) as nat) == 2 * pow2(e as nat),
            ;
        }
        k = 2 * k;
        e = e + 1;
    }
    let q: u64 = (2 * (k * 1024) + 255) / 510;
    ((15 - e) * 1024 + q - 1024) as u16
}

fn byte_of_half(pattern: u16) -> (byte: u8)
    ensures
        byte == half_byte(pattern),
{
    if pattern >= 0x8000 || pattern > 0x7c00 {
        0
    } else if pattern >= 0x3c00 {
        255
    } else if pattern < 1024 {
        0
    } else {
        let exponent: u16 = pattern / 1024;
        let significand: u64 = 1024 + (pattern % 1024) as u64;
        let mut unit: u64 = 1;
        let mut i: u16 = 0;
        proof {
            lemma2_to64();
        }
        while i < 25 - exponent
            invariant
                1 <= exponent < 15,
                i <= 25 - exponent,
                unit == pow2(i as nat),
                unit <= 0x100_0000,
                i < 25 - exponent ==> unit <= 0x80_0000,
            decreases 25 - exponent - i,
        {
            proof {
                lemma_pow2_unfold((i + 1) as nat);
                lemma2_to64();
                if i + 1 <= 24 {
                    lemma_pow2_bound((i + 1) as nat);
                }
                if i + 2 <= 24 {
                    lemma_pow2_bound((i + 2) as nat);
                    lemma_pow2_unfold((i + 2) as nat);
                }
            }
            unit = unit * 2;
            i = i + 1;
        }
        proof {
            half_byte_is_bounded(pattern);
        }
        ((significand * 510 + unit) / (2 * unit)) as u8
    }
}

proof fn lemma_pow2_bound(i: nat)
    requires
        i <= 24,
    ensures
        pow2(i) <= 0x100_0000,
{
    lemma2_to64();
    if i < 24 {
        lemma_pow2_strictly_increases(i, 24);
    }
}

proof fn half_byte_is_bounded(pattern: u16)
    requires
        1024 <= pattern < 0x3c00,
    ensures
        ({
            let unit = pow2((25 - pattern / 1024) as nat);
            let significand = 1024 + pattern % 1024;
            0 <= (significand * 510 + unit) / (2 * unit) as int <= 255
        }),
{
    lemma2_to64();
    let e = pattern / 1024;
    assert(1 <= e < 15);
    let unit = pow2((25 - e) as nat);
    let significand = 1024 + pattern % 1024;
    assert(unit >= 2048) by {
        if e < 14 {
            lemma_pow2_strictly_increases(11, (25 - e) as nat);
        }
    }
    assert(significand <= 2047);
    assert((significand * 510 + unit) / (2 * unit) as int <= 255) by (nonlinear_arith)
        requires
            0 <= significand <= 2047,
            unit >= 2048,
    ;
    assert((significand * 510 + unit) / (2 * unit) as int >= 0) by (nonlinear_arith)
        requires
            0 <= significand,
            unit >= 2048,
    ;
}

/// Every byte survives the bridge: what `half_byte` reads back from
/// `byte_half(n)` is `n`.
pub proof fn bridge_is_lossless(n: u8)
    ensures
        half_byte(byte_half(n)) == n,
{
    lemma2_to64();
    if n > 0 {
        crate::scalar::doublings_normalise(n as nat);
        let e = crate::scalar::doublings(n as nat);
        let k = n * pow2(e);
        let m = crate::scalar::nearest(k * 1024, 255);
        assert(m == (2048 * k + 255) / 510);
        assert(1024 <= m < 2048);
        assert(e == 0 || e == 1 || e == 2 || e == 3 || e == 4 || e == 5 || e == 6 || e == 7 || e == 8);
        let p = byte_half(n);
        assert(p == (15 - e) * 1024 + m - 1024);
        if e == 0 {
            assert(n == 255);
            assert(p == 0x3c00);
        } else {
            assert(p / 1024 == 15 - e);
            assert(p % 1024 == m - 1024);
            let unit = pow2((10 + e) as nat);
            lemma_pow2_adds(10, e);
            assert(unit * n == 1024 * k) by (nonlinear_arith)
                requires
                    unit == 1024 * pow2(e),
                    k == n * pow2(e),
            ;
            lemma_pow2_bound_below(e);
            assert(n * (2 * unit) == 2 * (unit * n)) by (nonlinear_arith);
            lemma_fundamental_div_mod_converse(
                m * 510 + unit,
                2 * unit as int,
                n as int,
                m * 510 + unit - 2 * (unit * n),
            );
        }
    }
}

proof fn lemma_pow2_bound_below(e: nat)
    requires
        1 <= e,
    ensures
        pow2((10 + e) as nat) >= 2048,
{
    lemma2_to64();
    if e > 1 {
        lemma_pow2_strictly_increases(11, (10 + e) as nat);
    }
}

/// The working window of a straight RGBA8 buffer.
pub open spec fn widened(rgba: Seq<u8>) -> Seq<u8> {
    Seq::new(
        2 * rgba.len(),
        |i: int|
            if i % 2 == 0 {
                (byte_half(rgba[i / 2]) % 256) as u8
            } else {
                (byte_half(rgba[i / 2]) / 256) as u8
            },
    )
}

/// The straight RGBA8 buffer of a working window. A last odd byte is ignored.
pub open spec fn narrowed(window: Seq<u8>) -> Seq<u8> {
    Seq::new(
        window.len() / 2,
        |i: int| half_byte((window[2 * i] + 256 * window[2 * i + 1]) as u16),
    )
}

/// Straight RGBA8 into the rgba16float working window.
pub fn rgba8_to_f16(rgba: &[u8]) -> (window: Vec<u8>)
    ensures
        window@ == widened(rgba@),
{
    let mut out: Vec<u8> = Vec::new();
    let mut i: usize = 0;
    while i < rgba.len()
        invariant
            i <= rgba@.len(),
            out@ == widened(rgba@.take(i as int)),
        decreases rgba@.len() - i,
    {
        let pattern: u16 = half_of_byte(rgba[i]);
        out.push((pattern % 256) as u8);
        out.push((pattern / 256) as u8);
        i = i + 1;
        proof {
            let before = rgba@.take(i - 1);
            let after = rgba@.take(i as int);
            assert(after.len() == before.len() + 1);
            assert forall|j: int| 0 <= j < 2 * i implies out@[j] == widened(after)[j] by {
                assert(after[j / 2] == rgba@[j / 2]);
                if j < 2 * (i - 1) {
                    assert(before[j / 2] == rgba@[j / 2]);
                }
            }
            assert(out@ =~= widened(after));
        }
    }
    proof {
        assert(rgba@.take(rgba@.len() as int) =~= rgba@);
    }
    out
}

/// The rgba16float working window back to straight RGBA8, clamped and rounded.
pub fn f16_to_rgba8(window: &[u8]) -> (rgba: Vec<u8>)
    ensures
        rgba@ == narrowed(window@),
{
    let mut out: Vec<u8> = Vec::new();
    let len: usize = window.len();
    let n: usize = len / 2;
    let mut i: usize = 0;
    while i < n
        invariant
            len == window@.len(),
            n == len / 2,
            i <= n,
            out@.len() == i,
            forall|j: int| 0 <= j < i ==> out@[j] == #[trigger] narrowed(window@)[j],
        decreases n - i,
    {
        let pattern: u16 = window[2 * i] as u16 + 256 * window[2 * i + 1] as u16;
        out.push(byte_of_half(pattern));
        i = i + 1;
    }
    proof {
        assert(out@ =~= narrowed(window@));
    }
    out
}

/// The binary16 pattern of sample `i` of a working window.
pub open spec fn pattern_at(window: Seq<u8>, i: int) -> u16 {
    (window[2 * i] + 256 * window[2 * i + 1]) as u16
}

/// A binary16 number brought down to one; everything up to zero, and a NaN,
/// give zero.
pub open spec fn coverage_half(pattern: u16) -> u16 {
    if pattern > 0x7c00 {
        0
    } else if pattern > 0x3c00 {
        0x3c00
    } else {
        pattern
    }
}

/// Whether `byte` is a colour sample dissociated from its alpha. Under a zero
/// alpha a colour carries no information, and black cannot fringe.
pub open spec fn dissociated<Q: Fn(u16, u16) -> u8>(
    quotient: Q,
    color: u16,
    alpha: u16,
    byte: u8,
) -> bool {
    let a = coverage_half(alpha);
    if a == 0 {
        byte == 0
    } else {
        quotient.ensures((color, a), byte)
    }
}

/// Whether pixel `p` of `rgba` is that of a premultiplied window.
pub open spec fn straightened<Q: Fn(u16, u16) -> u8>(
    quotient: Q,
    window: Seq<u8>,
    rgba: Seq<u8>,
    p: int,
) -> bool {
    let alpha = pattern_at(window, 4 * p + 3);
    &&& dissociated(quotient, pattern_at(window, 4 * p), alpha, rgba[4 * p])
    &&& dissociated(quotient, pattern_at(window, 4 * p + 1), alpha, rgba[4 * p + 1])
    &&& dissociated(quotient, pattern_at(window, 4 * p + 2), alpha, rgba[4 * p + 2])
    &&& rgba[4 * p + 3] == half_byte(alpha)
}

/// A premultiplied working window back to straight RGBA8. `quotient` is the byte
/// nearest to 255 times a colour over an alpha, clamped; it is floating point.
pub fn f16_to_rgba8_unpremul<Q: Fn(u16, u16) -> u8>(window: &[u8], quotient: &Q) -> (rgba: Vec<u8>)
    requires
        forall|c: u16, a: u16| #[trigger] quotient.requires((c, a)),
    ensures
        rgba@.len() == 4 * (window@.len() / 8),
        forall|p: int|
            0 <= p < window@.len() / 8 ==> #[trigger] straightened(*quotient, window@, rgba@, p),
{
    let mut out: Vec<u8> = Vec::new();
    let len: usize = window.len();
    let n: usize = len / 8;
    let mut i: usize = 0;
    while i < n
        invariant
            len == window@.len(),
            n == len / 8,
            i <= n,
            out@.len() == 4 * i,
            forall|c: u16, a: u16| #[trigger] quotient.requires((c, a)),
            forall|p: int|
                0 <= p < i ==> #[trigger] straightened(*quotient, window@, out@, p),
        decreases n - i,
    {
        let ghost before = out@;
        let r: u16 = window[8 * i] as u16 + 256 * window[8 * i + 1] as u16;
        let g: u16 = window[8 * i + 2] as u16 + 256 * window[8 * i + 3] as u16;
        let b: u16 = window[8 * i + 4] as u16 + 256 * window[8 * i + 5] as u16;
        let alpha: u16 = window[8 * i + 6] as u16 + 256 * window[8 * i + 7] as u16;
        let a: u16 = if alpha > 0x7c00 {
            0
        } else if alpha > 0x3c00 {
            0x3c00
        } else {
            alpha
        };
        if a == 0 {
            out.push(0);
            out.push(0);
            out.push(0);
        } else {
            out.push(quotient(r, a));
            out.push(quotient(g, a));
            out.push(quotient(b, a));
        }
        out.push(byte_of_half(alpha));
        proof {
            assert forall|p: int| 0 <= p <= i implies #[trigger] straightened(
                *quotient,
                window@,
                out@,
                p,
            ) by {
                if p < i {
                    assert(straightened(*quotient, window@, before, p));
                }
            }
        }
        i = i + 1;
    }
    out
}

/// A buffer that crosses the bridge and comes back is unchanged.
pub proof fn window_round_trip(rgba: Seq<u8>)
    ensures
        narrowed(widened(rgba)) == rgba,
{
    let wide = widened(rgba);
    assert forall|i: int| 0 <= i < rgba.len() implies narrowed(wide)[i] == rgba[i] by {
        bridge_is_lossless(rgba[i]);
        assert((2 * i) / 2 == i && (2 * i + 1) / 2 == i && (2 * i + 1) % 2 == 1 && (2 * i) % 2 == 0);
        let p = byte_half(rgba[i]);
        assert(wide[2 * i] + 256 * wide[2 * i + 1] == p);
    }
    assert(narrowed(wide) =~= rgba);
}

/// Each colour of a window is divided by the alpha of its own pixel, the fourth sample
/// of its eight bytes, low byte first; where there is no alpha it is nothing, and an
/// alpha past one divides as one.
pub proof fn a_colour_is_divided_by_its_own_alpha<Q: Fn(u16, u16) -> u8>(
    quotient: Q,
    window: Seq<u8>,
    rgba: Seq<u8>,
    p: int,
    c: int,
    color: u16,
    alpha: u16,
)
    requires
        straightened(quotient, window, rgba, p),
        0 <= c < 3,
        color == window[8 * p + 2 * c] + 256 * window[8 * p + 2 * c + 1],
        alpha == window[8 * p + 6] + 256 * window[8 * p + 7],
    ensures
        0 < alpha <= 0x3c00 ==> quotient.ensures((color, alpha), rgba[4 * p + c]),
        0x3c00 < alpha <= 0x7c00 ==> quotient.ensures((color, 0x3c00), rgba[4 * p + c]),
        alpha == 0 || alpha > 0x7c00 ==> rgba[4 * p + c] == 0,
        0x3c00 <= alpha <= 0x7c00 ==> rgba[4 * p + 3] == 255,
        alpha < 0x400 || alpha > 0x7c00 ==> rgba[4 * p + 3] == 0,
{
    assert(pattern_at(window, 4 * p + c) == color);
    assert(pattern_at(window, 4 * p + 3) == alpha);
}

} // verus!
