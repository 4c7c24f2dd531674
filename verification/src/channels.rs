//! The channels readout: per-channel statistics, and a channel's bytes as a
//! selection.
use crate::strings::{push_decimal, same_text};
use vstd::prelude::*;

verus! {

/// A colour channel of the working RGBA8 buffer.
#[derive(Debug, Clone, Copy, PartialEq, Eq, Structural)]
pub enum Channel {
    Red,
    Green,
    Blue,
    Alpha,
    /// Not a stored channel: the Rec.709 luma of R, G and B.
    Luma,
}

/// The largest unit that a number's leading 24 bits are counted in.
pub open spec fn unit(n: nat) -> nat
    decreases n,
{
    if n < 0x100_0000 {
        1
    } else {
        2 * unit(n / 2)
    }
}

/// `n / d` rounded to the nearest integer, ties to even.
pub open spec fn to_nearest(n: nat, d: nat) -> nat {
    let q = n / d;
    let r = n % d;
    if 2 * r > d || (2 * r == d && q % 2 == 1) {
        q + 1
    } else {
        q
    }
}

/// `n` rounded to 24 significant bits, ties to even: what a single-precision
/// operation with the exact result `n` yields.
pub open spec fn single(n: nat) -> nat {
    to_nearest(n, unit(n)) * unit(n)
}

/// The Rec.709 luma of a pixel, rounded: the weights 0.2126, 0.7152 and 0.0722,
/// multiplied and added left to right in single precision. The weights are
/// counted in 2^-26, 2^-24 and 2^-27, the sums in 2^-27.
pub open spec fn luma(r: u8, g: u8, b: u8) -> u8 {
    let red = 2 * single((0xd9_b3d0 * r) as nat);
    let green = 8 * single((0xb7_1759 * g) as nat);
    let blue = single((0x93_dd98 * b) as nat);
    let sum = single(single(red + green) + blue);
    ((sum + 0x400_0000) / 0x800_0000) as u8
}

impl Channel {
    /// The channel's wire name.
    pub open spec fn wire(self) -> Seq<char> {
        match self {
            Channel::Red => "red"@,
            Channel::Green => "green"@,
            Channel::Blue => "blue"@,
            Channel::Alpha => "alpha"@,
            Channel::Luma => "luma"@,
        }
    }

    /// The channel's value at one pixel.
    pub open spec fn value(self, px: Seq<u8>) -> u8 {
        match self {
            Channel::Red => px[0],
            Channel::Green => px[1],
            Channel::Blue => px[2],
            Channel::Alpha => px[3],
            Channel::Luma => luma(px[0], px[1], px[2]),
        }
    }

    /// Parse the wire name. An unknown name is `None`, never another channel.
    pub fn from_name(name: &str) -> (channel: Option<Channel>)
        ensures
            channel matches Some(c) ==> c.wire() == name@,
            channel is None ==> forall|c: Channel| #[trigger] c.wire() != name@,
            forall|c: Channel| #[trigger] c.wire() == name@ ==> channel == Some(c),
    {
        let channel: Option<Channel> = if same_text(name, "red") {
            Some(Channel::Red)
        } else if same_text(name, "green") {
            Some(Channel::Green)
        } else if same_text(name, "blue") {
            Some(Channel::Blue)
        } else if same_text(name, "alpha") {
            Some(Channel::Alpha)
        } else if same_text(name, "luma") {
            Some(Channel::Luma)
        } else {
            None
        };
        proof {
            channel_names_are_distinct();
            if let Some(c) = channel {
                assert(c.wire() == name@);
            }
        }
        channel
    }

    pub fn name(self) -> (name: &'static str)
        ensures
            name@ == self.wire(),
    {
        match self {
            Channel::Red => "red",
            Channel::Green => "green",
            Channel::Blue => "blue",
            Channel::Alpha => "alpha",
            Channel::Luma => "luma",
        }
    }

    /// The channel's value at one straight RGBA8 pixel.
    pub fn value_at(self, px: &[u8]) -> (v: u8)
        requires
            px@.len() >= 4,
        ensures
            v == self.value(px@),
    {
        match self {
            Channel::Red => px[0],
            Channel::Green => px[1],
            Channel::Blue => px[2],
            Channel::Alpha => px[3],
            Channel::Luma => luma_of(px[0], px[1], px[2]),
        }
    }
}

/// No two channels share a wire name.
pub proof fn channel_names_are_distinct()
    ensures
        forall|a: Channel, b: Channel| #[trigger] a.wire() == #[trigger] b.wire() ==> a == b,
{
    reveal_strlit("red");
    reveal_strlit("green");
    reveal_strlit("blue");
    reveal_strlit("alpha");
    reveal_strlit("luma");
    assert forall|a: Channel, b: Channel| #[trigger] a.wire() == #[trigger] b.wire() implies a == b by {
        assert(a.wire()[0] == b.wire()[0]);
    }
}

proof fn unit_bounds(n: nat)
    requires
        n < 0x10_0000_0000,
    ensures
        1 <= unit(n) <= 0x2000,
        n / unit(n) < 0x100_0000,
        n >= 0x100_0000 ==> n / unit(n) >= 0x80_0000,
    decreases n,
{
    if n >= 0x100_0000 {
        unit_bounds_by_size(n);
    }
}

proof fn unit_bounds_by_size(n: nat)
    requires
        0x100_0000 <= n < 0x10_0000_0000,
    ensures
        1 <= unit(n) <= 0x2000,
        n / unit(n) < 0x100_0000,
        n / unit(n) >= 0x80_0000,
    decreases n,
{
    let u = unit(n / 2);
    if n / 2 >= 0x100_0000 {
        unit_bounds_by_size(n / 2);
    }
    assert(n / (2 * u) == (n / 2) / u) by {
        vstd::arithmetic::div_mod::lemma_div_denominator(n as int, 2, u as int);
    }
    assert(u <= 0x1000) by (nonlinear_arith)
        requires
            (n / 2) / u >= 0x80_0000 || u == 1,
            n / 2 < 0x8_0000_0000,
            u >= 1,
    ;
}

fn round_single(n: u64) -> (v: u64)
    requires
        n < 0x10_0000_0000,
    ensures
        v == single(n as nat),
        v <= n + 0x2000,
{
    let mut u: u64 = 1;
    let mut m: u64 = n;
    proof {
        unit_bounds(n as nat);
    }
    while m >= 0x100_0000
        invariant
            n < 0x10_0000_0000,
            m <= n,
            1 <= u <= 0x2000,
            u * unit(m as nat) == unit(n as nat),
            unit(n as nat) <= 0x2000,
        decreases m,
    {
        proof {
            unit_bounds((m / 2) as nat);
            assert(2 * u <= 0x2000 && (2 * u) * unit((m / 2) as nat) == unit(n as nat))
                by (nonlinear_arith)
                requires
                    u * (2 * unit((m / 2) as nat)) == unit(n as nat),
                    unit((m / 2) as nat) >= 1,
                    unit(n as nat) <= 0x2000,
                    u >= 1,
            ;
        }
        m = m / 2;
        u = 2 * u;
    }
    proof {
        assert(u == unit(n as nat)) by (nonlinear_arith)
            requires
                u * unit(m as nat) == unit(n as nat),
                unit(m as nat) == 1,
        ;
    }
    let q: u64 = n / u;
    let r: u64 = n % u;
    proof {
        vstd::arithmetic::div_mod::lemma_fundamental_div_mod(n as int, u as int);
        assert(q * u <= n && (q + 1) * u == q * u + u && u * q == q * u) by (nonlinear_arith)
            requires
                n == u * q + r,
                0 <= r,
        ;
    }
    if 2 * r > u || (2 * r == u && q % 2 == 1) {
        (q + 1) * u
    } else {
        q * u
    }
}

fn luma_of(r: u8, g: u8, b: u8) -> (v: u8)
    ensures
        v == luma(r, g, b),
{
    let red: u64 = 2 * round_single(0xd9_b3d0 * r as u64);
    let green: u64 = 8 * round_single(0xb7_1759 * g as u64);
    let blue: u64 = round_single(0x93_dd98 * b as u64);
    let sum: u64 = round_single(round_single(red + green) + blue);
    ((sum + 0x400_0000) / 0x800_0000) as u8
}

/// Pixel `i` of a buffer.
pub open spec fn pixel(rgba: Seq<u8>, i: int) -> Seq<u8> {
    rgba.subrange(4 * i, 4 * i + 4)
}

/// A channel's values over the whole pixels of a buffer.
pub open spec fn values(rgba: Seq<u8>, channel: Channel) -> Seq<u8> {
    Seq::new(rgba.len() / 4, |i: int| channel.value(pixel(rgba, i)))
}

/// A channel's bytes, one per pixel: the payload of "load channel as
/// selection". A half-grey channel becomes a half-selected region; nothing is
/// thresholded.
pub fn channel_bytes(rgba: &[u8], channel: Channel) -> (bytes: Vec<u8>)
    ensures
        bytes@ == values(rgba@, channel),
{
    let len: usize = rgba.len();
    let n: usize = len / 4;
    let mut out: Vec<u8> = Vec::new();
    let mut i: usize = 0;
    while i < n
        invariant
            len == rgba@.len(),
            n == len / 4,
            i <= n,
            out@.len() == i,
            forall|j: int| 0 <= j < i ==> out@[j] == #[trigger] values(rgba@, channel)[j],
        decreases n - i,
    {
        let px: &[u8] = vstd::slice::slice_subrange(rgba, 4 * i, 4 * i + 4);
        out.push(channel.value_at(px));
        i = i + 1;
    }
    proof {
        assert(out@ =~= values(rgba@, channel));
    }
    out
}

/// The least of the first `n` values.
pub open spec fn least_of(v: Seq<u8>, n: nat) -> u8
    decreases n,
{
    if n == 0 {
        255
    } else {
        let rest = least_of(v, (n - 1) as nat);
        if v[n - 1] < rest {
            v[n - 1]
        } else {
            rest
        }
    }
}

/// The greatest of the first `n` values.
pub open spec fn greatest_of(v: Seq<u8>, n: nat) -> u8
    decreases n,
{
    if n == 0 {
        0
    } else {
        let rest = greatest_of(v, (n - 1) as nat);
        if v[n - 1] > rest {
            v[n - 1]
        } else {
            rest
        }
    }
}

/// The sum of the first `n` values.
pub open spec fn sum_of(v: Seq<u8>, n: nat) -> nat
    decreases n,
{
    if n == 0 {
        0
    } else {
        sum_of(v, (n - 1) as nat) + v[n - 1] as nat
    }
}

/// One channel's reduction over a buffer. The mean is kept as a fraction, so
/// that a nearly flat channel does not read as exactly flat.
#[derive(Debug, Clone, Copy, PartialEq, Eq, Structural)]
pub struct ChannelStats {
    pub min: u8,
    pub max: u8,
    /// The sum of the values: the mean's numerator.
    pub sum: u128,
    /// The number of pixels: the mean's denominator.
    pub count: u64,
}

/// Reduce one channel of a straight RGBA8 buffer. A buffer without a whole
/// pixel yields `None`: "no pixels" is not "all pixels are zero".
pub fn stats_of(rgba: &[u8], channel: Channel) -> (stats: Option<ChannelStats>)
    ensures
        stats is Some <==> rgba@.len() >= 4,
        stats matches Some(s) ==> {
            let v = values(rgba@, channel);
            &&& s.min == least_of(v, v.len())
            &&& s.max == greatest_of(v, v.len())
            &&& s.sum == sum_of(v, v.len())
            &&& s.count == v.len()
        },
{
    if rgba.len() < 4 {
        return None;
    }
    let v: Vec<u8> = channel_bytes(rgba, channel);
    let mut min: u8 = 255;
    let mut max: u8 = 0;
    let mut sum: u128 = 0;
    let mut i: usize = 0;
    while i < v.len()
        invariant
            i <= v@.len(),
            min == least_of(v@, i as nat),
            max == greatest_of(v@, i as nat),
            sum == sum_of(v@, i as nat),
            sum <= 255 * i,
        decreases v@.len() - i,
    {
        let x: u8 = v[i];
        if x < min {
            min = x;
        }
        if x > max {
            max = x;
        }
        sum = sum + x as u128;
        i = i + 1;
    }
    Some(ChannelStats { min, max, sum, count: v.len() as u64 })
}

/// The least power of two that lifts `num` to at least `limit`, counted on from
/// `s`.
pub open spec fn lift(num: nat, limit: nat, s: nat) -> nat
    decreases 2 * limit - num,
{
    if num == 0 || num >= limit {
        s
    } else {
        lift(2 * num, limit, s + 1)
    }
}

/// The mean `sum / count` of bytes in thousandths, as printing its double with
/// three decimals rounds it: the quotient is rounded to 53 significant bits and
/// that number to the nearest thousandth, ties to even both times. A mean below
/// 2^-12 is below half a thousandth.
pub open spec fn mean_thousandths(sum: nat, count: nat) -> nat {
    if 4096 * sum < count {
        0
    } else {
        let s = lift(sum * 0x2000_0000_0000, count * 0x10_0000_0000_0000, 45);
        let double = to_nearest(sum * vstd::arithmetic::power2::pow2(s), count);
        to_nearest(double * 1000, vstd::arithmetic::power2::pow2(s))
    }
}

fn nearest_even(n: u128, d: u128) -> (q: u128)
    requires
        0 < d <= 0x4000_0000_0000_0000_0000_0000_0000_0000,
        n < 0x8000_0000_0000_0000_0000_0000_0000_0000,
    ensures
        q == to_nearest(n as nat, d as nat),
        q <= n / d + 1,
{
    let q: u128 = n / d;
    let r: u128 = n % d;
    proof {
        assert(n / d <= n) by (nonlinear_arith)
            requires
                d >= 1,
                n >= 0,
        ;
    }
    if 2 * r > d || (2 * r == d && q % 2 == 1) {
        q + 1
    } else {
        q
    }
}

fn mean_in_thousandths(sum: u128, count: u64) -> (t: u128)
    requires
        0 < count,
        sum <= 255 * count,
    ensures
        t == mean_thousandths(sum as nat, count as nat),
{
    if 4096 * sum < count as u128 {
        return 0;
    }
    proof {
        vstd::arithmetic::power2::lemma2_to64();
        vstd::arithmetic::power2::lemma2_to64_rest();
    }
    let limit: u128 = count as u128 * 0x10_0000_0000_0000;
    let mut num: u128 = sum * 0x2000_0000_0000;
    let mut s: u32 = 45;
    let ghost total = lift((sum * 0x2000_0000_0000) as nat, limit as nat, 45);
    proof {
        assert(sum * vstd::arithmetic::power2::pow2(45) == sum * 0x2000_0000_0000);
    }
    while num < limit
        invariant
            0 < sum,
            count as int <= 4096 * sum,
            0 < count <= u64::MAX,
            limit == count * 0x10_0000_0000_0000,
            num == sum * vstd::arithmetic::power2::pow2(s as nat),
            num < 2 * limit,
            45 <= s <= 64,
            lift(num as nat, limit as nat, s as nat) == total,
            num >= sum * 0x2000_0000_0000,
        decreases 2 * limit - num,
    {
        proof {
            vstd::arithmetic::power2::lemma2_to64();
            vstd::arithmetic::power2::lemma2_to64_rest();
            vstd::arithmetic::power2::lemma_pow2_unfold((s + 1) as nat);
            assert(sum * vstd::arithmetic::power2::pow2((s + 1) as nat) == 2 * num) by (nonlinear_arith)
                requires
                    num == sum * vstd::arithmetic::power2::pow2(s as nat),
                    vstd::arithmetic::power2::pow2((s + 1) as nat) == 2
                        * vstd::arithmetic::power2::pow2(s as nat),
            ;
            if s == 64 {
                // Already at 64 the number is past the limit.
                assert(num == sum * 0x1_0000_0000_0000_0000);
            }
        }
        num = 2 * num;
        s = s + 1;
    }
    let double: u128 = nearest_even(num, count as u128);
    let mut one: u128 = 1;
    let mut i: u32 = 0;
    proof {
        assert(num / count as u128 <= 0x20_0000_0000_0000) by (nonlinear_arith)
            requires
                num < 2 * limit,
                limit == count * 0x10_0000_0000_0000,
                count > 0,
        ;
    }
    while i < s
        invariant
            i <= s <= 64,
            one == vstd::arithmetic::power2::pow2(i as nat),
            one <= 0x1_0000_0000_0000_0000,
        decreases s - i,
    {
        proof {
            vstd::arithmetic::power2::lemma2_to64_rest();
            vstd::arithmetic::power2::lemma_pow2_unfold((i + 1) as nat);
            if i + 1 < 64 {
                vstd::arithmetic::power2::lemma_pow2_strictly_increases((i + 1) as nat, 64);
            }
        }
        one = 2 * one;
        i = i + 1;
    }
    proof {
        vstd::arithmetic::power2::lemma_pow2_pos(s as nat);
    }
    nearest_even(double * 1000, one)
}

/// A number of thousandths with three decimals.
pub open spec fn three_decimals(t: nat) -> Seq<char> {
    crate::strings::decimal(t / 1000) + seq![
        '.',
        crate::strings::digit_char(t / 100 % 10),
        crate::strings::digit_char(t / 10 % 10),
        crate::strings::digit_char(t % 10),
    ]
}

fn push_thousandths(s: &mut String, t: u128)
    ensures
        final(s)@ == old(s)@ + three_decimals(t as nat),
{
    push_decimal(s, t / 1000);
    s.push('.');
    s.push((48u8 + (t / 100 % 10) as u8) as char);
    s.push((48u8 + (t / 10 % 10) as u8) as char);
    s.push((48u8 + (t % 10) as u8) as char);
    proof {
        assert(s@ =~= old(s)@ + three_decimals(t as nat));
    }
}

/// One row of the readout; an unmeasurable channel reports nulls.
pub open spec fn row_text(rgba: Seq<u8>, channel: Channel) -> Seq<char> {
    let v = values(rgba, channel);
    if rgba.len() < 4 {
        "{\"name\":\""@ + channel.wire() + "\",\"min\":null,\"max\":null,\"mean\":null}"@
    } else {
        "{\"name\":\""@ + channel.wire() + "\",\"min\":"@ + crate::strings::decimal(
            least_of(v, v.len()) as nat,
        ) + ",\"max\":"@ + crate::strings::decimal(greatest_of(v, v.len()) as nat) + ",\"mean\":"@
            + three_decimals(mean_thousandths(sum_of(v, v.len()), v.len())) + "}"@
    }
}

fn push_row(s: &mut String, rgba: &[u8], channel: Channel)
    ensures
        final(s)@ == old(s)@ + row_text(rgba@, channel),
{
    let ghost start = s@;
    let mut row: String = "{\"name\":\"".to_owned();
    row.append(channel.name());
    match stats_of(rgba, channel) {
        Some(st) => {
            row.append("\",\"min\":");
            push_decimal(&mut row, st.min as u128);
            row.append(",\"max\":");
            push_decimal(&mut row, st.max as u128);
            row.append(",\"mean\":");
            proof {
                sum_is_bounded(values(rgba@, channel), values(rgba@, channel).len());
            }
            push_thousandths(&mut row, mean_in_thousandths(st.sum, st.count));
            row.append("}");
        },
        None => {
            row.append("\",\"min\":null,\"max\":null,\"mean\":null}");
        },
    }
    s.append(row.as_str());
}

/// A sum of bytes is at most 255 per byte.
pub proof fn sum_is_bounded(v: Seq<u8>, n: nat)
    requires
        n <= v.len(),
    ensures
        sum_of(v, n) <= 255 * n,
    decreases n,
{
    if n > 0 {
        sum_is_bounded(v, (n - 1) as nat);
    }
}

/// The readout: the four stored channels and the luma, in this order.
pub open spec fn stats_text(rgba: Seq<u8>) -> Seq<char> {
    "["@ + row_text(rgba, Channel::Red) + ","@ + row_text(rgba, Channel::Green) + ","@ + row_text(
        rgba,
        Channel::Blue,
    ) + ","@ + row_text(rgba, Channel::Alpha) + ","@ + row_text(rgba, Channel::Luma) + "]"@
}

/// The channel statistics as JSON for the panel: `[{name, min, max, mean}]`.
pub fn stats_json(rgba: &[u8]) -> (json: String)
    ensures
        json@ == stats_text(rgba@),
{
    let mut s: String = "[".to_owned();
    push_row(&mut s, rgba, Channel::Red);
    s.append(",");
    push_row(&mut s, rgba, Channel::Green);
    s.append(",");
    push_row(&mut s, rgba, Channel::Blue);
    s.append(",");
    push_row(&mut s, rgba, Channel::Alpha);
    s.append(",");
    push_row(&mut s, rgba, Channel::Luma);
    s.append("]");
    s
}

/// The extremes bound every value and are among them: the readout states
/// measurements, not defaults.
pub proof fn extremes_are_measured(v: Seq<u8>, n: nat)
    requires
        0 < n <= v.len(),
    ensures
        forall|i: int| 0 <= i < n ==> least_of(v, n) <= #[trigger] v[i] <= greatest_of(v, n),
        exists|i: int| 0 <= i < n && #[trigger] v[i] == least_of(v, n),
        exists|i: int| 0 <= i < n && #[trigger] v[i] == greatest_of(v, n),
    decreases n,
{
    let m = (n - 1) as nat;
    if m > 0 {
        extremes_are_measured(v, m);
        let lo = choose|i: int| 0 <= i < m && #[trigger] v[i] == least_of(v, m);
        let hi = choose|i: int| 0 <= i < m && #[trigger] v[i] == greatest_of(v, m);
        assert(v[if v[m as int] < least_of(v, m) {
            m as int
        } else {
            lo
        }] == least_of(v, n));
        assert(v[if v[m as int] > greatest_of(v, m) {
            m as int
        } else {
            hi
        }] == greatest_of(v, n));
    } else {
        reveal_with_fuel(least_of, 2);
        reveal_with_fuel(greatest_of, 2);
        assert(v[0] == least_of(v, n));
        assert(v[0] == greatest_of(v, n));
    }
}

/// A channel reads its own byte of each pixel, and the luma reads none of the alpha.
pub proof fn a_channel_reads_its_own_bytes(rgba: Seq<u8>, i: int)
    requires
        0 <= i < rgba.len() / 4,
    ensures
        values(rgba, Channel::Red)[i] == rgba[4 * i],
        values(rgba, Channel::Green)[i] == rgba[4 * i + 1],
        values(rgba, Channel::Blue)[i] == rgba[4 * i + 2],
        values(rgba, Channel::Alpha)[i] == rgba[4 * i + 3],
        values(rgba, Channel::Luma)[i] == luma(rgba[4 * i], rgba[4 * i + 1], rgba[4 * i + 2]),
        values(rgba, Channel::Red).len() == rgba.len() / 4,
{
}

proof fn lemma_to_nearest(n: nat, d: nat)
    requires
        0 < d,
    ensures
        -(d as int) <= 2 * (to_nearest(n, d) * d - n) <= d,
{
    let (q, r) = (n / d, n % d);
    vstd::arithmetic::div_mod::lemma_fundamental_div_mod(n as int, d as int);
    assert(d * q == q * d) by (nonlinear_arith);
    assert((q + 1) * d == q * d + d) by (nonlinear_arith);
}

proof fn lemma_single(n: nat)
    requires
        n < 0x10_0000_0000,
    ensures
        -0x1000 <= single(n) - n <= 0x1000,
{
    unit_bounds(n);
    lemma_to_nearest(n, unit(n));
}

/// The luma is the weighted sum of the colours, to within a rounding: 0.2126 of red,
/// 0.7152 of green and 0.0722 of blue.
pub proof fn a_luma_is_the_weighted_sum(r: u8, g: u8, b: u8)
    ensures
        -5010 <= 10000 * luma(r, g, b) - (2126 * r + 7152 * g + 722 * b) <= 5010,
{
    let (nr, ng, nb) = ((0xd9_b3d0 * r) as nat, (0xb7_1759 * g) as nat, (0x93_dd98 * b) as nat);
    lemma_single(nr);
    lemma_single(ng);
    lemma_single(nb);
    let red = 2 * single(nr);
    let green = 8 * single(ng);
    let blue = single(nb);
    lemma_single(red + green);
    lemma_single(single(red + green) + blue);
    let sum = single(single(red + green) + blue);
    assert((sum + 0x400_0000) / 0x800_0000 <= 255);
}

/// The mean is the sum over the count, to the nearest thousandth but for the rounding
/// of a double: it is never off by a whole one.
pub proof fn a_mean_is_the_sum_over_the_count(sum: nat, count: nat)
    requires
        0 < count,
    ensures
        -(count as int) < mean_thousandths(sum, count) * count - 1000 * sum < count,
{
    let t = mean_thousandths(sum, count);
    if 4096 * sum < count {
        assert(t * count == 0) by (nonlinear_arith)
            requires
                t == 0,
        ;
    } else {
        let s = lift(sum * 0x2000_0000_0000, count * 0x10_0000_0000_0000, 45);
        lemma_lift_grows(sum * 0x2000_0000_0000, count * 0x10_0000_0000_0000, 45);
        let u = vstd::arithmetic::power2::pow2(s);
        vstd::arithmetic::power2::lemma_pow2_pos(s);
        lemma_power_is_large(s);
        let d = to_nearest(sum * u, count);
        lemma_to_nearest(sum * u, count);
        lemma_to_nearest(d * 1000, u);
        let off = t * u - d * 1000;
        let gap = d * count - sum * u;
        assert(u * (t * count - 1000 * sum) == count * off + 1000 * gap) by (nonlinear_arith)
            requires
                off == t * u - d * 1000,
                gap == d * count - sum * u,
        ;
        assert(-(count * u) <= 2 * (count * off) <= count * u) by (nonlinear_arith)
            requires
                -(u as int) <= 2 * off <= u,
                0 < count,
        ;
        assert(1000 * count < (count * u)) by (nonlinear_arith)
            requires
                1000 < u,
                0 < count,
        ;
        let miss = t * count - 1000 * sum;
        assert(2 * (u * miss) == 2 * (count * off) + 1000 * (2 * gap));
        assert(-2 * (count * u) < 2 * (u * miss) < 2 * (count * u));
        assert(-(count as int) < miss < count) by (nonlinear_arith)
            requires
                -2 * (count * u) < 2 * (u * miss) < 2 * (count * u),
                0 < u,
        ;
    }
}

proof fn lemma_lift_grows(num: nat, limit: nat, s: nat)
    ensures
        lift(num, limit, s) >= s,
    decreases 2 * limit - num,
{
    if !(num == 0 || num >= limit) {
        lemma_lift_grows(2 * num, limit, s + 1);
    }
}

proof fn lemma_power_is_large(s: nat)
    requires
        s >= 45,
    ensures
        vstd::arithmetic::power2::pow2(s) > 1000,
{
    vstd::arithmetic::power2::lemma2_to64();
    if s > 10 {
        vstd::arithmetic::power2::lemma_pow2_strictly_increases(10, s);
    }
}

/// Thousandths are written with their three last digits behind the point: the text
/// without its point is the decimal of the number, where that has a digit before them.
pub proof fn thousandths_stand_behind_the_point(t: nat)
    requires
        t >= 1000,
    ensures
        ({
            let text = three_decimals(t);
            let at = text.len() - 4;
            &&& at > 0
            &&& text[at] == '.'
            &&& text.take(at) + text.skip(at + 1) == crate::strings::decimal(t)
        }),
{
    let whole = crate::strings::decimal(t / 1000);
    let text = three_decimals(t);
    let at = text.len() - 4;
    reveal_with_fuel(crate::strings::decimal, 5);
    assert(t / 10 / 10 / 10 == t / 1000 && t / 10 / 10 % 10 == t / 100 % 10);
    assert(text.take(at) =~= whole);
    assert(text.take(at) + text.skip(at + 1) =~= crate::strings::decimal(t));
}

} // verus!
