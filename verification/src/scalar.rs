//! Single-precision parameters, held by their bit patterns.
//!
//! The panel hands parameters over as IEEE 754 binary32 numbers. The editor
//! only ever compares, clamps and stores them, so a parameter is kept as its
//! bits and ordered by the standard's own rule: the magnitude bits order the
//! numbers of one sign, the two zeros are equal, and a NaN is unordered.
use vstd::arithmetic::power2::*;
use vstd::prelude::*;

verus! {

/// A binary32 number by its bit pattern.
#[derive(Debug, Clone, Copy, PartialEq, Eq, Structural)]
pub struct Scalar {
    pub bits: u32,
}

/// The bit pattern of positive zero.
pub const ZERO: u32 = 0;

/// The bit pattern of one.
pub const ONE: u32 = 0x3f80_0000;

/// Positive zero.
pub open spec fn zero() -> Scalar {
    Scalar { bits: ZERO }
}

/// One.
pub open spec fn one() -> Scalar {
    Scalar { bits: ONE }
}

impl Scalar {
    /// The bits without the sign.
    pub open spec fn magnitude(self) -> int {
        (self.bits % 0x8000_0000) as int
    }

    /// Whether the sign bit is set.
    pub open spec fn negative(self) -> bool {
        self.bits >= 0x8000_0000
    }

    /// Whether the pattern is a NaN: all exponent bits set and a fraction.
    pub open spec fn nan(self) -> bool {
        self.magnitude() > 0x7f80_0000
    }

    /// Whether the pattern is neither infinite nor a NaN.
    pub open spec fn finite(self) -> bool {
        self.magnitude() < 0x7f80_0000
    }

    /// The position of the number in the order of all numbers. Both zeros
    /// stand at 0.
    pub open spec fn rank(self) -> int {
        if self.negative() {
            -self.magnitude()
        } else {
            self.magnitude()
        }
    }

    /// `self < other`. Nothing is less than, or more than, a NaN.
    pub open spec fn below(self, other: Scalar) -> bool {
        !self.nan() && !other.nan() && self.rank() < other.rank()
    }

    /// `self == other` as numbers: the zeros are equal, a NaN equals nothing.
    pub open spec fn equals(self, other: Scalar) -> bool {
        !self.nan() && !other.nan() && self.rank() == other.rank()
    }

    /// `self` brought into `[lo, hi]`. A NaN passes through.
    pub open spec fn clamped(self, lo: Scalar, hi: Scalar) -> Scalar {
        if self.below(lo) {
            lo
        } else if hi.below(self) {
            hi
        } else {
            self
        }
    }

    fn key(self) -> (key: i64)
        ensures
            key == self.rank(),
    {
        if self.bits >= 0x8000_0000 {
            -((self.bits % 0x8000_0000) as i64)
        } else {
            (self.bits % 0x8000_0000) as i64
        }
    }

    /// Whether this is a NaN.
    pub fn is_nan(self) -> (nan: bool)
        ensures
            nan <==> self.nan(),
    {
        self.bits % 0x8000_0000 > 0x7f80_0000
    }

    /// Whether this is neither infinite nor a NaN.
    pub fn is_finite(self) -> (finite: bool)
        ensures
            finite <==> self.finite(),
    {
        self.bits % 0x8000_0000 < 0x7f80_0000
    }

    /// `self < other`.
    pub fn lt(self, other: Scalar) -> (less: bool)
        ensures
            less <==> self.below(other),
    {
        !self.is_nan() && !other.is_nan() && self.key() < other.key()
    }

    /// `self >= other`.
    pub fn ge(self, other: Scalar) -> (at_least: bool)
        ensures
            at_least <==> other.below(self) || self.equals(other),
    {
        !self.is_nan() && !other.is_nan() && self.key() >= other.key()
    }

    /// `self == other` as numbers.
    pub fn same(self, other: Scalar) -> (equal: bool)
        ensures
            equal <==> self.equals(other),
    {
        !self.is_nan() && !other.is_nan() && self.key() == other.key()
    }

    /// `self` brought into `[lo, hi]`.
    pub fn clamp(self, lo: Scalar, hi: Scalar) -> (clamped: Scalar)
        ensures
            clamped == self.clamped(lo, hi),
    {
        if self.lt(lo) {
            lo
        } else if hi.lt(self) {
            hi
        } else {
            self
        }
    }
}

/// How often a positive numerator below 255 must be doubled to reach 255.
pub open spec fn doublings(n: nat) -> nat
    decreases 510 - n,
{
    if n == 0 || n >= 255 {
        0
    } else {
        1 + doublings(2 * n)
    }
}

/// The integer nearest to `a / b`; no caller meets a tie.
pub open spec fn nearest(a: int, b: int) -> int {
    (2 * a + b) / (2 * b)
}

/// The binary32 number nearest to `n / 255`: the exponent that brings the
/// quotient into `[1, 2)` and the rounded 24-bit significand.
pub open spec fn byte_fraction(n: u8) -> Scalar {
    if n == 0 {
        zero()
    } else {
        let e = doublings(n as nat);
        Scalar {
            bits: ((127 - e) * 0x80_0000 + nearest(n * pow2(e) * 0x80_0000, 255) - 0x80_0000) as u32,
        }
    }
}

/// Doubling `n` the stated number of times lands in `[255, 510)`, within eight
/// steps.
pub proof fn doublings_normalise(n: nat)
    requires
        1 <= n <= 255,
    ensures
        255 <= n * pow2(doublings(n)) < 510,
        n >= 128 ==> doublings(n) <= 1,
        doublings(n) <= 8,
    decreases 510 - n,
{
    lemma2_to64();
    if n < 255 {
        if 2 * n < 255 {
            doublings_normalise(2 * n);
            assert(doublings(n) <= 8) by {
                bounded_doublings(n);
            }
        } else {
            assert(doublings(2 * n) == 0);
            assert((2 * n) * pow2(0) == 2 * n) by (nonlinear_arith)
                requires
                    pow2(0) == 1,
            ;
        }
        let e = doublings(2 * n);
        lemma_pow2_unfold(e + 1);
        assert(n * pow2(e + 1) == 2 * n * pow2(e)) by (nonlinear_arith)
            requires
                pow2(e + 1) == 2 * pow2(e),
        ;
    } else {
        assert(n * pow2(0) == 255) by (nonlinear_arith)
            requires
                n == 255,
                pow2(0) == 1,
        ;
    }
}

proof fn bounded_doublings(n: nat)
    requires
        1 <= n <= 255,
    ensures
        n >= 128 ==> doublings(n) <= 1,
        n >= 64 ==> doublings(n) <= 2,
        n >= 32 ==> doublings(n) <= 3,
        n >= 16 ==> doublings(n) <= 4,
        n >= 8 ==> doublings(n) <= 5,
        n >= 4 ==> doublings(n) <= 6,
        n >= 2 ==> doublings(n) <= 7,
        doublings(n) <= 8,
    decreases 510 - n,
{
    if n < 255 {
        if 2 * n <= 255 {
            bounded_doublings(2 * n);
        } else {
            assert(doublings(2 * n) == 0);
        }
    }
}

/// The binary32 number nearest to `n / 255`.
pub fn fraction_of_255(n: u8) -> (fraction: Scalar)
    ensures
        fraction == byte_fraction(n),
{
    if n == 0 {
        return Scalar { bits: ZERO };
    }
    let ghost total = doublings(n as nat);
    let mut k: u64 = n as u64;
    let mut e: u64 = 0;
    proof {
        lemma2_to64();
        bounded_doublings(n as nat);
    }
    while k < 255
        invariant
            1 <= k < 510,
            e + doublings(k as nat) == total,
            k == n * pow2(e as nat),
            total <= 8,
        decreases 510 - k,
    {
        proof {
            lemma_pow2_unfold((e + 1) as nat);
            assert(n * pow2((e + 1) as nat) == 2 * (n * pow2(e as nat))) by (nonlinear_arith)
                requires
                    pow2((e + 1) as nat) == 2 * pow2(e as nat),
            ;
        }
        k = 2 * k;
        e = e + 1;
    }
    let q: u64 = (2 * (k * 0x80_0000) + 255) / 510;
    Scalar { bits: ((127 - e) * 0x80_0000 + q - 0x80_0000) as u32 }
}

/// A clamped number lies in the interval, unless it was a NaN.
pub proof fn clamp_lands_inside(x: Scalar, lo: Scalar, hi: Scalar)
    requires
        lo.below(hi) || lo.equals(hi),
    ensures
        !x.nan() ==> !x.clamped(lo, hi).below(lo) && !hi.below(x.clamped(lo, hi)),
        x.nan() ==> x.clamped(lo, hi) == x,
{
}

/// Clamping twice is clamping once.
pub proof fn clamp_is_idempotent(x: Scalar, lo: Scalar, hi: Scalar)
    requires
        lo.below(hi) || lo.equals(hi),
    ensures
        x.clamped(lo, hi).clamped(lo, hi) == x.clamped(lo, hi),
{
}

/// A byte fraction is a number between zero and one, and the ends are exact.
pub proof fn byte_fraction_is_a_unit(n: u8)
    ensures
        byte_fraction(n).finite(),
        !byte_fraction(n).below(zero()),
        !one().below(byte_fraction(n)),
        byte_fraction(0) == zero(),
        byte_fraction(255) == one(),
        n > 0 ==> zero().below(byte_fraction(n)),
{
    lemma2_to64();
    if n > 0 {
        doublings_normalise(n as nat);
        let e = doublings(n as nat);
        let k = n * pow2(e);
        let q = (2 * (k * 0x80_0000) + 255) / 510;
        assert(0x80_0000 <= q < 0x100_0000);
        if e == 0 {
            assert(n == 255);
        }
    }
}

/// Numbers order as their values do: those above zero by their bits, those below
/// zero the other way round, the ones below zero before the ones above it, and the
/// two zeros alike. A NaN compares with nothing.
pub proof fn numbers_order_by_their_bits(a: Scalar, b: Scalar)
    ensures
        a.nan() || b.nan() ==> !a.below(b) && !a.equals(b),
        !a.nan() && !b.nan() && a.bits < 0x8000_0000 && b.bits < 0x8000_0000 ==> (a.below(b) <==> a.bits
            < b.bits) && (a.equals(b) <==> a.bits == b.bits),
        !a.nan() && !b.nan() && a.bits >= 0x8000_0000 && b.bits >= 0x8000_0000 ==> (a.below(b)
            <==> a.bits > b.bits) && (a.equals(b) <==> a.bits == b.bits),
        !a.nan() && !b.nan() && a.bits > 0x8000_0000 && b.bits < 0x8000_0000 ==> a.below(b),
        a.bits == 0x8000_0000 && b.bits == 0 ==> a.equals(b) && b.equals(a) && !a.below(b)
            && !b.below(a),
        a.nan() <==> (0x7f80_0000 < a.bits < 0x8000_0000 || 0xff80_0000 < a.bits),
        a.finite() <==> (a.bits < 0x7f80_0000 || 0x8000_0000 <= a.bits < 0xff80_0000),
        zero().bits == 0,
        one().bits == 0x3f80_0000,
{
}

/// A clamp moves a number as little as it can: one below the range comes out at its
/// lower end, one above at its upper end, and one inside it, or a NaN, as it went in.
pub proof fn a_clamp_moves_as_little_as_it_can(s: Scalar, lo: Scalar, hi: Scalar)
    requires
        !lo.nan(),
        !hi.nan(),
        lo.rank() <= hi.rank(),
    ensures
        s.nan() ==> s.clamped(lo, hi) == s,
        !s.nan() && s.rank() < lo.rank() ==> s.clamped(lo, hi) == lo,
        !s.nan() && s.rank() > hi.rank() ==> s.clamped(lo, hi) == hi,
        lo.rank() <= s.rank() <= hi.rank() ==> s.clamped(lo, hi) == s,
{
}

/// A byte's fraction is the number nearest to it over 255: with its leading digits and
/// its power of two, 255 times it misses the byte by less than half a digit's worth.
pub proof fn a_byte_fraction_is_the_nearest(n: u8)
    requires
        0 < n,
    ensures
        ({
            let f = byte_fraction(n);
            let digits = 0x80_0000 + f.bits % 0x80_0000;
            let shift = 150 - f.bits / 0x80_0000;
            &&& 23 <= shift
            &&& -255 <= 2 * (255 * digits - n * pow2(shift as nat)) <= 255
        }),
{
    doublings_normalise(n as nat);
    let e = doublings(n as nat);
    let k = n * pow2(e);
    let m = (2 * (k * 0x80_0000) + 255) / 510;
    assert(0x80_0000 <= m < 0x100_0000);
    let f = byte_fraction(n);
    assert(f.bits == (127 - e) * 0x80_0000 + m - 0x80_0000);
    assert(f.bits / 0x80_0000 == 127 - e);
    assert(f.bits % 0x80_0000 == m - 0x80_0000);
    vstd::arithmetic::power2::lemma_pow2_adds(23, e);
    lemma2_to64();
    assert(pow2((23 + e) as nat) == 0x80_0000 * pow2(e));
    assert(n * (0x80_0000 * pow2(e)) == 0x80_0000 * (n * pow2(e))) by (nonlinear_arith);
}

} // verus!
