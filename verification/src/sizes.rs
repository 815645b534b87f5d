//! What sizes a frame is brought to, and where its values come from.
use crate::clip::{
    clip_values, mean_bits, processor_sides, processor_value, resized_sides, scaled_edge,
    scaled_side, std_bits, AutoGazeRgbaClipShape, BLUE_MEAN_BITS, BLUE_STD_BITS, GREEN_MEAN_BITS,
    GREEN_STD_BITS, RED_MEAN_BITS, RED_STD_BITS, RESCALE_FACTOR_BITS,
};
use crate::format::abs_nat;
use crate::ieee::{lemma_double_product, lemma_whole_doubles_exact, Binary32, Binary64};
use crate::layout::area_share;
use crate::nearness::{
    lemma_double_over_between, lemma_double_over_near, lemma_double_times_between,
    lemma_double_times_near, lemma_single_over_between, lemma_single_over_near,
    lemma_single_plus_between, lemma_single_plus_near, lemma_single_times_between,
    lemma_single_times_near, lemma_single_whole,
};
use crate::patch_diff::whole_count;
use crate::placement::{lemma_scaled_off, lemma_simple_values};
use crate::trace::{single, ONE_BITS, ZERO_BITS};
use vstd::arithmetic::power2::{
    lemma2_to64, lemma2_to64_rest, lemma_pow2_adds, lemma_pow2_pos, pow2,
};
use vstd::prelude::*;

verus! {

proof fn lemma_double_one()
    ensures
        Binary64::one_value() >= 0x1000_0000_0000_0000,
{
    lemma_pow2_adds(60, 1014);
    lemma2_to64();
    lemma2_to64_rest();
    lemma_pow2_pos(1014);
}

/// What a number is rounded to lies within one half of it.
pub proof fn lemma_rounds_to_nearest(x: Binary64)
    requires
        x.value() >= 0,
    ensures
        2 * abs_nat(x.round_int() * Binary64::one_value() - x.value()) <= Binary64::one_value(),
        x.round_int() >= 0,
{
    lemma_double_one();
    let one = Binary64::one_value() as int;
    let v = x.value();
    let n = 2 * v + one;
    let r = n / (2 * one);
    vstd::arithmetic::div_mod::lemma_fundamental_div_mod(n, 2 * one);
    assert((2 * one) * r == 2 * (r * one)) by (nonlinear_arith);
    assert(r >= 0) by (nonlinear_arith)
        requires
            n == (2 * one) * r + n % (2 * one),
            0 <= n % (2 * one) < 2 * one,
            n >= 0,
            one > 0,
    ;
}

/// `r` is a whole number nearest to `n / d`.
pub open spec fn is_nearest_quotient(r: int, n: int, d: int) -> bool {
    2 * abs_nat(r * d - n) <= d
}

/// What is off by less than one unit in all is nothing.
proof fn lemma_nearest_from_parts(r: int, x: int, n: int, d: int, one: int)
    requires
        one > 0,
        d > 0,
        2 * abs_nat(r * one - x) <= one,
        2 * abs_nat(x * d - n * one) < one,
    ensures
        is_nearest_quotient(r, n, d),
{
    let a = r * one - x;
    let b = x * d - n * one;
    let e = r * d - n;
    assert(e * one == a * d + b) by (nonlinear_arith)
        requires
            a == r * one - x,
            b == x * d - n * one,
            e == r * d - n,
    ;
    assert(-(one * d) <= 2 * (a * d) <= one * d) by (nonlinear_arith)
        requires
            -one <= 2 * a <= one,
            d > 0,
    ;
    assert(-d <= 2 * e <= d) by (nonlinear_arith)
        requires
            -(one * d) - one < 2 * (e * one),
            2 * (e * one) < one * d + one,
            one > 0,
    ;
}

/// A side that follows from the other keeps the aspect: it is the whole number nearest to the other
/// side's scale of it, but no less than one.
#[verifier::rlimit(40)]
pub proof fn lemma_side_keeps_aspect(side: u32, target: u32, given: u32)
    requires
        side > 0,
        target > 0,
        given > 0,
        side * target < 0x10_0000_0000_0000,
        side * target <= u32::MAX * given,
    ensures
        ({
            let r = scaled_side(side, target, given) as int;
            &&& r >= 1
            &&& is_nearest_quotient(r, side * target, given as int) || r == 1 && 2 * (side
                * target) <= given
        }),
{
    lemma_double_one();
    let one = Binary64::one_value() as int;
    let n = (side as nat * target as nat) as nat;
    lemma_double_product(side as nat, target as nat);
    lemma_whole_doubles_exact(n);
    lemma_whole_doubles_exact(given as nat);
    lemma_whole_doubles_exact(0);
    let a = Binary64::of_nat(n);
    let b = Binary64::of_nat(given as nat);
    let zero = Binary64::of_nat(0);
    let (m, d) = (n as int, given as int);
    assert(m > 0) by (nonlinear_arith)
        requires
            m == side * target,
            side > 0,
            target > 0,
    ;
    assert(d * one >= one) by (nonlinear_arith)
        requires
            d >= 1,
            one > 0,
    ;
    assert(0 * one == 0) by (nonlinear_arith);
    assert(0 * (d * one) == 0) by (nonlinear_arith);
    assert(0 <= (m * one) * one <= (m * one) * (d * one)) by (nonlinear_arith)
        requires
            m >= 0,
            0 < one <= d * one,
    ;
    lemma_double_over_between(a, b, zero, a);
    lemma_double_over_near(a, b);
    let q = a.over(b);
    let x = q.value();
    let e = x * d - m * one;
    assert(x * (d * one) - (m * one) * one == e * one) by (nonlinear_arith)
        requires
            e == x * d - m * one,
    ;
    lemma_quotient_off(e, m, d, one);
    lemma_rounds_to_nearest(q);
    let r = q.round_int();
    lemma_nearest_from_parts(r, x, m, d, one);
    assert(r <= u32::MAX) by (nonlinear_arith)
        requires
            2 * (r * d - m) <= d,
            m <= 0xffff_ffff * d,
            d > 0,
    ;
    assert(r == 0 ==> r * d == 0) by (nonlinear_arith);
}

proof fn lemma_quotient_off(e: int, m: int, d: int, one: int)
    requires
        one >= 0x1000_0000_0000_0000,
        0 < m < 0x10_0000_0000_0000,
        0 < d <= 0xffff_ffff,
        2 * abs_nat(e * one) <= d * one || 0x20_0000_0000_0000 * abs_nat(e * one) <= abs_nat(
            (m * one) * one,
        ),
    ensures
        2 * abs_nat(e) < one,
{
    let a = abs_nat(e) as int;
    assert(abs_nat(e * one) == a * one) by (nonlinear_arith)
        requires
            a == abs_nat(e),
            one > 0,
    ;
    assert((m * one) * one >= 0) by (nonlinear_arith)
        requires
            m > 0,
            one > 0,
    ;
    assert(2 * a < one) by (nonlinear_arith)
        requires
            2 * (a * one) <= d * one || 0x20_0000_0000_0000 * (a * one) <= (m * one) * one,
            d <= 0xffff_ffff,
            0 < m < 0x10_0000_0000_0000,
            one >= 0x1000_0000_0000_0000,
    {
        if 2 * (a * one) <= d * one {
            assert((2 * a) * one <= d * one);
        } else {
            assert((0x20_0000_0000_0000 * a) * one <= (m * one) * one);
            assert(0x20_0000_0000_0000 * a <= m * one);
            assert(m * one < 0x10_0000_0000_0000 * one);
        }
    }
}

/// A resized frame keeps its aspect where one side is given, and has its own size where none is.
pub proof fn lemma_resize_nearest(width: u32, height: u32, target: u32)
    requires
        width > 0,
        height > 0,
        target > 0,
        height * target < 0x10_0000_0000_0000,
        height * target <= u32::MAX * width,
        width <= 2 * (height * target),
    ensures
        ({
            let (w, h) = resized_sides(width, height, Some(target), None);
            &&& w == target
            &&& is_nearest_quotient(h as int, height * target, width as int) || h == 1
            &&& resized_sides(height, width, None, Some(target)) == (h, w)
        }),
{
    lemma_side_keeps_aspect(height, target, width);
}

/// An edge that is brought to size is the whole number nearest to its own length times the scale.
#[verifier::rlimit(40)]
proof fn lemma_edge_scaled(side: nat, edge: nat, shorter: nat)
    requires
        0 < shorter <= side < 0x100_0000,
        0 < edge < 0x100_0000,
        side * edge <= 0xffff_ffff * shorter,
    ensures
        is_nearest_quotient(
            scaled_edge(
                side,
                Binary64::of_nat(edge).over(Binary64::of_nat(shorter)),
            ) as int,
            (side * edge) as int,
            shorter as int,
        ),
        scaled_edge(side, Binary64::of_nat(edge).over(Binary64::of_nat(shorter))) >= 1,
{
    lemma_double_one();
    let one = Binary64::one_value() as int;
    lemma_whole_doubles_exact(side);
    lemma_whole_doubles_exact(edge);
    lemma_whole_doubles_exact(shorter);
    lemma_whole_doubles_exact(0);
    assert(side * edge < 0x1_0000_0000_0000) by (nonlinear_arith)
        requires
            0 < side < 0x100_0000,
            0 < edge < 0x100_0000,
    ;
    lemma_whole_doubles_exact(side * edge);
    let (a, b) = (Binary64::of_nat(edge), Binary64::of_nat(shorter));
    let zero = Binary64::of_nat(0);
    let (s, e, d) = (side as int, edge as int, shorter as int);
    assert(d * one >= one) by (nonlinear_arith)
        requires
            d >= 1,
            one > 0,
    ;
    assert(0 * one == 0) by (nonlinear_arith);
    assert(0 * (d * one) == 0) by (nonlinear_arith);
    assert(0 <= (e * one) * one <= (e * one) * (d * one)) by (nonlinear_arith)
        requires
            e >= 0,
            0 < one <= d * one,
    ;
    lemma_double_over_between(a, b, zero, a);
    lemma_double_over_near(a, b);
    let scale = a.over(b);
    let c = scale.value();
    let u = c * d - e * one;
    assert(c * (d * one) - (e * one) * one == u * one) by (nonlinear_arith)
        requires
            u == c * d - e * one,
    ;
    let x = Binary64::of_nat(side);
    let top = Binary64::of_nat(side * edge);
    assert(0 <= (s * one) * c <= ((s * e) * one) * one) by (nonlinear_arith)
        requires
            0 <= c <= e * one,
            s >= 0,
            one > 0,
    ;
    lemma_double_times_between(x, scale, zero, top);
    lemma_double_times_near(x, scale);
    let y = x.times(scale);
    let t = y.value();
    let v = t - s * c;
    assert(t * one - (s * one) * c == v * one) by (nonlinear_arith)
        requires
            v == t - s * c,
    ;
    assert((s * one) * c == (s * c) * one) by (nonlinear_arith);
    assert(s * d <= 0x1_0000_0000_0000) by (nonlinear_arith)
        requires
            0 < d <= s < 0x100_0000,
    ;
    lemma_edge_off(t, c, s, e, d, one);
    lemma_rounds_to_nearest(y);
    let r = y.round_int();
    lemma_nearest_from_parts(r, t, s * e, d, one);
    assert(1 <= r <= 0xffff_ffff) by (nonlinear_arith)
        requires
            -d <= 2 * (r * d - s * e) <= d,
            s * e <= 0xffff_ffff * d,
            d <= s,
            e >= 1,
            d >= 1,
    {
        assert(s * e >= d * 1);
        assert(2 * (r * d) >= d);
    }
}

#[verifier::rlimit(40)]
proof fn lemma_edge_off(t: int, c: int, s: int, e: int, d: int, one: int)
    requires
        one >= 0x1000_0000_0000_0000,
        0 < d,
        0 < s,
        0 < e,
        s * d <= 0x1_0000_0000_0000,
        s * e <= 0x1_0000_0000_0000,
        c >= 0,
        ({
            let u = (c * d - e * one) * one;
            2 * abs_nat(u) <= d * one || 0x20_0000_0000_0000 * abs_nat(u) <= abs_nat(
                (e * one) * one,
            )
        }),
        ({
            let v = (t - s * c) * one;
            2 * abs_nat(v) <= one || 0x20_0000_0000_0000 * abs_nat(v) <= abs_nat((s * c) * one)
        }),
    ensures
        2 * abs_nat(t * d - (s * e) * one) < one,
{
    let u = c * d - e * one;
    let v = t - s * c;
    let (p, q) = (abs_nat(u) as int, abs_nat(v) as int);
    assert(abs_nat(u * one) == p * one && abs_nat(v * one) == q * one) by (nonlinear_arith)
        requires
            p == abs_nat(u),
            q == abs_nat(v),
            one > 0,
    ;
    assert((e * one) * one >= 0 && (s * c) * one >= 0 && e * one > 0) by (nonlinear_arith)
        requires
            e > 0,
            s > 0,
            c >= 0,
            one > 0,
    ;
    assert(2 * p <= d || 0x20_0000_0000_0000 * p <= e * one) by (nonlinear_arith)
        requires
            2 * (p * one) <= d * one || 0x20_0000_0000_0000 * (p * one) <= (e * one) * one,
            one > 0,
    {
        if 2 * (p * one) <= d * one {
            assert((2 * p) * one <= d * one);
        } else {
            assert((0x20_0000_0000_0000 * p) * one <= (e * one) * one);
        }
    }
    assert(0x20_0000_0000_0000 * q <= s * c) by (nonlinear_arith)
        requires
            2 * (q * one) <= one || 0x20_0000_0000_0000 * (q * one) <= (s * c) * one,
            one > 0,
            q >= 0,
            s > 0,
            c >= 0,
    {
        if 2 * (q * one) <= one {
            assert((2 * q) * one <= 1 * one);
            assert(q == 0);
            assert(s * c >= 0);
        } else {
            assert((0x20_0000_0000_0000 * q) * one <= (s * c) * one);
        }
    }
    assert(t * d - (s * e) * one == v * d + s * u) by (nonlinear_arith)
        requires
            u == c * d - e * one,
            v == t - s * c,
    ;
    let w = s * e;
    assert(0 < w) by (nonlinear_arith)
        requires
            w == s * e,
            0 < s,
            0 < e,
    ;
    assert(w * one <= 0x1_0000_0000_0000 * one) by (nonlinear_arith)
        requires
            w <= 0x1_0000_0000_0000,
            one > 0,
    ;
    assert(8 * (s * p) < one) by (nonlinear_arith)
        requires
            2 * p <= d || 0x20_0000_0000_0000 * p <= e * one,
            0 < s,
            s * d <= 0x1_0000_0000_0000,
            w == s * e,
            w * one <= 0x1_0000_0000_0000 * one,
            one >= 0x1000_0000_0000_0000,
            p >= 0,
    {
        if 2 * p <= d {
            assert(s * (2 * p) <= s * d);
        } else {
            assert(s * (0x20_0000_0000_0000 * p) <= s * (e * one));
            assert(s * (e * one) == w * one);
            assert(0x20_0000_0000_0000 * (s * p) == s * (0x20_0000_0000_0000 * p));
        }
    }
    assert(s * (c * d) <= 2 * (w * one)) by (nonlinear_arith)
        requires
            c * d == e * one + u,
            u <= p,
            8 * (s * p) < one,
            w == s * e,
            w >= 1,
            s > 0,
            one > 0,
    {
        assert(s * (c * d) <= s * (e * one + p));
        assert(s * (e * one + p) == w * one + s * p);
        assert(w * one >= one);
    }
    assert(8 * (q * d) < one) by (nonlinear_arith)
        requires
            0x20_0000_0000_0000 * q <= s * c,
            s * (c * d) <= 2 * (w * one),
            w * one <= 0x1_0000_0000_0000 * one,
            d > 0,
            q >= 0,
            one > 0,
    {
        assert((0x20_0000_0000_0000 * q) * d <= (s * c) * d);
        assert((s * c) * d == s * (c * d));
        assert((0x20_0000_0000_0000 * q) * d == 0x20_0000_0000_0000 * (q * d));
    }
    assert(-(q * d) <= v * d <= q * d && -(s * p) <= s * u <= s * p) by (nonlinear_arith)
        requires
            -q <= v <= q,
            -p <= u <= p,
            d > 0,
            s > 0,
    ;
}

/// A frame that is brought to the model's size has its shorter side at the given length, and its
/// longer side at the whole number nearest to the same scale.
pub proof fn lemma_processor_size(height: nat, width: nat, edge: nat)
    requires
        0 < height < 0x100_0000,
        0 < width < 0x100_0000,
        0 < edge < 0x100_0000,
        height * edge <= 0xffff_ffff * width,
        width * edge <= 0xffff_ffff * height,
    ensures
        ({
            let (h, w) = processor_sides(height, width, edge);
            let shorter = if height <= width {
                height
            } else {
                width
            };
            &&& height <= width ==> h == edge
            &&& width <= height ==> w == edge
            &&& is_nearest_quotient(h as int, (height * edge) as int, shorter as int)
            &&& is_nearest_quotient(w as int, (width * edge) as int, shorter as int)
        }),
{
    let shorter = if height <= width {
        height
    } else {
        width
    };
    assert(shorter * edge <= 0xffff_ffff * shorter) by (nonlinear_arith)
        requires
            edge < 0x100_0000,
    ;
    if shorter == edge {
        assert(height * edge == edge * height && width * edge == edge * width) by (nonlinear_arith);
    } else {
        lemma_edge_scaled(height, edge, shorter);
        lemma_edge_scaled(width, edge, shorter);
        let scale = Binary64::of_nat(edge).over(Binary64::of_nat(shorter));
        let r = scaled_edge(shorter, scale) as int;
        let (s, e) = (shorter as int, edge as int);
        assert(r == e) by (nonlinear_arith)
            requires
                -s <= 2 * (r * s - s * e) <= s,
                s > 0,
        {
            assert(r * s - s * e == (r - e) * s);
        }
    }
}

/// The values of a clip lie frame by frame, in each a plane for red, green and blue: the value of a
/// pixel in a plane comes from that pixel's byte of that channel.
pub proof fn lemma_clip_value_at(
    rgba: Seq<u8>,
    shape: AutoGazeRgbaClipShape,
    frame: int,
    channel: int,
    pixel: int,
)
    requires
        0 <= frame < shape.clip_len,
        0 <= channel < 3,
        0 <= pixel < shape.pixels(),
    ensures
        ({
            let pixels = shape.pixels();
            let i = (frame * 3 + channel) * pixels + pixel;
            &&& 0 <= i < clip_values(rgba, shape).len()
            &&& clip_values(rgba, shape)[i] == processor_value(
                rgba[(frame * pixels + pixel) * 4 + channel],
                channel as nat,
            )
        }),
{
    let pixels = shape.pixels() as int;
    let plane = frame * 3 + channel;
    let i = plane * pixels + pixel;
    let n = shape.clip_len as int;
    assert(0 <= plane * pixels && plane * pixels + pixels <= n * 3 * pixels) by (nonlinear_arith)
        requires
            0 <= plane,
            plane + 1 <= n * 3,
            pixels >= 0,
    ;
    vstd::arithmetic::div_mod::lemma_fundamental_div_mod_converse(i, pixels, plane, pixel);
    assert(plane / 3 == frame && plane % 3 == channel);
    assert(frame * pixels >= 0) by (nonlinear_arith)
        requires
            frame >= 0,
            pixels >= 0,
    ;
}

/// The value of a number of single precision, from its significand and its exponent.
proof fn lemma_single_bits(bits: u32, g: nat, e: nat)
    requires
        0x80_0000 <= bits < 0x7f80_0000,
        g == 0x80_0000 + bits as int % 0x80_0000,
        e == bits as int / 0x80_0000 - 1,
        e <= 149,
    ensures
        single(bits).finite(),
        single(bits).value() == g * pow2(e),
        Binary32::one_value() == pow2(e) * pow2((149 - e) as nat),
        pow2(e) > 0,
{
    lemma_pow2_adds(e, (149 - e) as nat);
    lemma_pow2_pos(e);
    let f = Binary32::format();
    f.lemma_constants();
    assert(f.significand(bits as nat) == g);
    assert(f.shift(bits as nat) == e);
}

/// The means and the deviations of the channels, in thousandths.
pub open spec fn channel_mean(channel: nat) -> int {
    if channel == 0 {
        485
    } else if channel == 1 {
        456
    } else {
        406
    }
}

pub open spec fn channel_deviation(channel: nat) -> int {
    if channel == 0 {
        229
    } else if channel == 1 {
        224
    } else {
        225
    }
}

/// `v` is `thousandths`, to one part in sixty million.
pub open spec fn is_thousandths(v: Binary32, thousandths: int) -> bool {
    let one = Binary32::one_value();
    &&& v.finite()
    &&& 0x1_0000 * abs_nat(1000 * v.value() - thousandths * one) <= one
}

proof fn lemma_channel_constants(channel: nat)
    requires
        channel < 3,
    ensures
        is_thousandths(single(mean_bits(channel)), channel_mean(channel)),
        is_thousandths(single(std_bits(channel)), channel_deviation(channel)),
{
    lemma2_to64();
    let one = Binary32::one_value() as int;
    let (p, q) = (pow2(124) as int, pow2(123) as int);
    if channel == 0 {
        lemma_single_bits(0x3ef8_51ec, 0xf8_51ec, 124);
        lemma_single_bits(0x3e6a_7efa, 0xea_7efa, 123);
        assert(one == p * 0x200_0000 && one == q * 0x400_0000);
        assert(is_thousandths(single(RED_MEAN_BITS), 485));
        assert(is_thousandths(single(RED_STD_BITS), 229));
    } else if channel == 1 {
        lemma_single_bits(0x3ee9_78d5, 0xe9_78d5, 124);
        lemma_single_bits(0x3e65_6042, 0xe5_6042, 123);
        assert(one == p * 0x200_0000 && one == q * 0x400_0000);
        assert(is_thousandths(single(GREEN_MEAN_BITS), 456));
        assert(is_thousandths(single(GREEN_STD_BITS), 224));
    } else {
        lemma_single_bits(0x3ecf_df3b, 0xcf_df3b, 124);
        lemma_single_bits(0x3e66_6666, 0xe6_6666, 123);
        assert(one == p * 0x200_0000 && one == q * 0x400_0000);
        assert(is_thousandths(single(BLUE_MEAN_BITS), 406));
        assert(is_thousandths(single(BLUE_STD_BITS), 225));
    }
}

proof fn lemma_rescale_factor()
    ensures
        ({
            let r = single(RESCALE_FACTOR_BITS);
            let one = Binary32::one_value();
            &&& r.finite()
            &&& 0 <= 255 * r.value() - 2 * one
            &&& 0x40_0000 * (255 * r.value() - 2 * one) <= one
        }),
{
    lemma2_to64();
    lemma_single_bits(0x3c00_8081, 0x80_8081, 119);
    let r = pow2(119) as int;
    let one = Binary32::one_value() as int;
    assert(one == r * 0x4000_0000);
    let v = single(RESCALE_FACTOR_BITS).value();
    assert(v == 0x80_8081 * r);
    assert(0 <= 255 * v - 2 * one && 0x40_0000 * (255 * v - 2 * one) <= one) by (nonlinear_arith)
        requires
            v == 0x80_8081 * r,
            one == r * 0x4000_0000,
            r > 0,
    ;
}

/// A byte is brought to its place in `-1..=1`.
#[verifier::rlimit(40)]
proof fn lemma_rescaled_byte(value: u8)
    ensures
        ({
            let x = Binary32::of_nat(value as nat).times(single(RESCALE_FACTOR_BITS)).minus(
                single(ONE_BITS),
            );
            let one = Binary32::one_value();
            &&& x.finite()
            &&& -(one as int) <= x.value() <= 3 * one
            &&& 0x40_0000 * abs_nat(255 * x.value() - (2 * value - 255) * one) <= 765 * one
        }),
{
    lemma_rescale_factor();
    lemma_simple_values();
    let one = Binary32::one_value() as int;
    let b = value as int;
    let byte = Binary32::of_nat(value as nat);
    lemma_single_whole(value as nat);
    lemma_single_whole(3);
    let rescale = single(RESCALE_FACTOR_BITS);
    let rv = rescale.value();
    let three = Binary32::of_nat(3);
    let zero = single(ZERO_BITS);
    let br = b * rv;
    assert(0 <= br && br <= 255 * rv) by (nonlinear_arith)
        requires
            br == b * rv,
            0 <= b <= 255,
            rv >= 0,
    ;
    assert((b * one) * rv == br * one) by (nonlinear_arith)
        requires
            br == b * rv,
    ;
    assert(0 * one == 0) by (nonlinear_arith);
    assert(0 <= br * one && br * one <= (3 * one) * one) by (nonlinear_arith)
        requires
            0 <= br <= 3 * one,
            one > 0,
    ;
    lemma_single_times_between(byte, rescale, zero, three);
    lemma_single_times_near(byte, rescale);
    let t = byte.times(rescale);
    let tv = t.value();
    assert(tv * one - br * one == (tv - br) * one) by (nonlinear_arith);
    lemma_scaled_off(tv - br, br, one);
    let unit = single(ONE_BITS);
    let minus = unit.negated();
    assert(minus.finite() && minus.value() == -one);
    lemma_single_plus_between(t, minus, minus, three);
    lemma_single_plus_near(t, minus);
    let xv = t.minus(unit).value();
    let off = b * (255 * rv - 2 * one);
    assert(255 * br - 2 * (b * one) == off) by (nonlinear_arith)
        requires
            br == b * rv,
            off == b * (255 * rv - 2 * one),
    ;
    assert(0 <= off && 0x40_0000 * off <= 255 * one) by (nonlinear_arith)
        requires
            off == b * (255 * rv - 2 * one),
            0 <= b <= 255,
            0 <= 0x40_0000 * (255 * rv - 2 * one) <= one,
    {
        assert(b * (0x40_0000 * (255 * rv - 2 * one)) <= 255 * one);
    }
    assert((2 * b - 255) * one == 2 * (b * one) - 255 * one) by (nonlinear_arith);
}

/// The value of a byte is its place in `-1..=1`, less the mean of the channel and divided by the
/// deviation, up to two parts in a million.
#[verifier::rlimit(40)]
pub proof fn lemma_processor_value(value: u8, channel: nat)
    requires
        channel < 3,
    ensures
        ({
            let one = Binary32::one_value();
            let z = processor_value(value, channel);
            let exact = 1000 * (2 * value - 255) - 255 * channel_mean(channel);
            &&& z.finite()
            &&& 0x8_0000 * abs_nat(
                255 * (channel_deviation(channel) * z.value()) - exact * one,
            ) <= 255000 * one
        }),
{
    lemma_channel_constants(channel);
    lemma_rescaled_byte(value);
    lemma_simple_values();
    let one = Binary32::one_value() as int;
    let x = Binary32::of_nat(value as nat).times(single(RESCALE_FACTOR_BITS)).minus(
        single(ONE_BITS),
    );
    let (mean, dev) = (single(mean_bits(channel)), single(std_bits(channel)));
    lemma_constant_range(channel, mean.value(), dev.value(), one);
    lemma_normalized(x, mean, dev);
    let y = x.minus(mean);
    let z = y.over(dev);
    lemma_division_off(z.value(), y.value(), dev.value(), one);
    lemma_mean_off(y.value(), x.value(), mean.value(), value as int, one);
    lemma_value_off(
        z.value(),
        y.value(),
        dev.value(),
        mean.value(),
        value as int,
        channel_deviation(channel),
        channel_mean(channel),
        one,
    );
}

/// What a mean is taken from and a deviation divides.
proof fn lemma_normalized(x: Binary32, mean: Binary32, dev: Binary32)
    requires
        x.finite(),
        mean.finite(),
        dev.finite(),
        -(Binary32::one_value() as int) <= x.value() <= 3 * Binary32::one_value(),
        0 < mean.value() < Binary32::one_value(),
        Binary32::one_value() <= 8 * dev.value(),
        dev.value() < Binary32::one_value(),
    ensures
        ({
            let one = Binary32::one_value();
            let y = x.minus(mean);
            let z = y.over(dev);
            let off = abs_nat(z.value() * dev.value() - y.value() * one);
            &&& y.finite()
            &&& -(4 * one) <= y.value() <= 4 * one
            &&& z.finite()
            &&& -(32 * one) <= z.value() <= 32 * one
            &&& 0x100_0000 * abs_nat(y.value() - (x.value() - mean.value())) <= abs_nat(
                x.value() - mean.value(),
            )
            &&& 2 * off <= dev.value() || 0x100_0000 * off <= abs_nat(y.value() * one)
        }),
{
    lemma_simple_values();
    lemma_single_whole(4);
    lemma_single_whole(32);
    let one = Binary32::one_value() as int;
    let dv = dev.value();
    let four = Binary32::of_nat(4);
    let minus_four = four.negated();
    assert(minus_four.finite() && minus_four.value() == -(4 * one));
    let minus_mean = mean.negated();
    assert(minus_mean.finite() && minus_mean.value() == -mean.value());
    lemma_single_plus_between(x, minus_mean, minus_four, four);
    lemma_single_plus_near(x, minus_mean);
    let y = x.minus(mean);
    let yv = y.value();
    let most = Binary32::of_nat(32);
    let least = most.negated();
    assert(least.finite() && least.value() == -(32 * one));
    assert((-(32 * one)) * dv <= yv * one && yv * one <= (32 * one) * dv) by (nonlinear_arith)
        requires
            -(4 * one) <= yv <= 4 * one,
            one <= 8 * dv,
            one > 0,
    {
        assert(yv * one <= (4 * one) * one);
        assert((-(4 * one)) * one <= yv * one);
        assert(one * one <= one * (8 * dv));
    }
    lemma_single_over_between(y, dev, least, most);
    lemma_single_over_near(y, dev);
}

proof fn lemma_division_off(z: int, y: int, d: int, one: int)
    requires
        one >= 0x100_0000_0000_0000,
        -(4 * one) <= y <= 4 * one,
        d <= one,
        2 * abs_nat(z * d - y * one) <= d || 0x100_0000 * abs_nat(z * d - y * one) <= abs_nat(
            y * one,
        ),
    ensures
        0x40_0000 * abs_nat(z * d - y * one) <= one * one,
{
    let off = abs_nat(z * d - y * one) as int;
    assert(abs_nat(y * one) <= 4 * (one * one)) by (nonlinear_arith)
        requires
            -(4 * one) <= y <= 4 * one,
            one > 0,
    ;
    assert(0x40_0000 * off <= one * one) by (nonlinear_arith)
        requires
            2 * off <= d || 0x100_0000 * off <= 4 * (one * one),
            d <= one,
            one >= 0x100_0000_0000_0000,
    ;
}

proof fn lemma_mean_off(y: int, x: int, m: int, b: int, one: int)
    requires
        one > 0,
        -one <= x <= 3 * one,
        0 < m < one,
        0x40_0000 * abs_nat(255 * x - (2 * b - 255) * one) <= 765 * one,
        0x100_0000 * abs_nat(y - (x - m)) <= abs_nat(x - m),
    ensures
        0x40_0000 * abs_nat(255 * y - ((2 * b - 255) * one - 255 * m)) <= 255 * 4 * one,
{
    let p = (2 * b - 255) * one;
    let (d, e) = (255 * x - p, y - (x - m));
    assert(255 * y - (p - 255 * m) == d + 255 * e);
    assert(-(765 * one) <= 0x40_0000 * d <= 765 * one);
    assert(-one <= 0x40_0000 * e <= one);
    assert(-(1020 * one) <= 0x40_0000 * (d + 255 * e) <= 1020 * one);
}

proof fn lemma_constant_range(channel: nat, mean: int, dev: int, one: int)
    requires
        channel < 3,
        one > 0,
        0x1_0000 * abs_nat(1000 * mean - channel_mean(channel) * one) <= one,
        0x1_0000 * abs_nat(1000 * dev - channel_deviation(channel) * one) <= one,
    ensures
        0 < mean < one,
        0 < dev < one,
        one <= 8 * dev,
{
    if channel == 0 {
        assert(channel_mean(channel) == 485 && channel_deviation(channel) == 229);
    } else if channel == 1 {
        assert(channel_mean(channel) == 456 && channel_deviation(channel) == 224);
    } else {
        assert(channel_mean(channel) == 406 && channel_deviation(channel) == 225);
    }
}

/// What is off in the parts of a value.
#[verifier::rlimit(40)]
proof fn lemma_value_off(z: int, y: int, d: int, m: int, b: int, dev: int, mean: int, one: int)
    requires
        one > 0,
        -(32 * one) <= z <= 32 * one,
        0x40_0000 * abs_nat(255 * y - ((2 * b - 255) * one - 255 * m)) <= 255 * 4 * one,
        0x40_0000 * abs_nat(z * d - y * one) <= one * one,
        0x1_0000 * abs_nat(1000 * d - dev * one) <= one,
        0x1_0000 * abs_nat(1000 * m - mean * one) <= one,
    ensures
        0x8_0000 * abs_nat(255 * (dev * z) - (1000 * (2 * b - 255) - 255 * mean) * one) <= 255000
            * one,
{
    let ye = 255 * y - ((2 * b - 255) * one - 255 * m);
    let ze = z * d - y * one;
    let de = 1000 * d - dev * one;
    let me = 1000 * m - mean * one;
    let exact = 1000 * (2 * b - 255) - 255 * mean;
    let r = 255 * (dev * z) - exact * one;
    assert(r * one == 255000 * ze + 1000 * (ye * one) - 255 * (z * de) - 255 * (me * one))
        by (nonlinear_arith)
        requires
            ye == 255 * y - ((2 * b - 255) * one - 255 * m),
            ze == z * d - y * one,
            de == 1000 * d - dev * one,
            me == 1000 * m - mean * one,
            exact == 1000 * (2 * b - 255) - 255 * mean,
            r == 255 * (dev * z) - exact * one,
    ;
    let w = one * one;
    assert(-(1020 * w) <= 0x40_0000 * (ye * one) <= 1020 * w) by (nonlinear_arith)
        requires
            -(1020 * one) <= 0x40_0000 * ye <= 1020 * one,
            w == one * one,
            one > 0,
    ;
    assert(-w <= 0x1_0000 * (me * one) <= w) by (nonlinear_arith)
        requires
            -one <= 0x1_0000 * me <= one,
            w == one * one,
            one > 0,
    ;
    let (az, ad) = (abs_nat(z) as int, abs_nat(de) as int);
    assert(-(az * ad) <= z * de <= az * ad) by (nonlinear_arith)
        requires
            -az <= z <= az,
            -ad <= de <= ad,
            az == abs_nat(z),
            ad == abs_nat(de),
    ;
    assert(0x1_0000 * (az * ad) <= 32 * w) by (nonlinear_arith)
        requires
            0 <= az <= 32 * one,
            0 <= 0x1_0000 * ad <= one,
            w == one * one,
    {
        assert(az * (0x1_0000 * ad) <= (32 * one) * one);
    }
    assert(-(255000 * w) <= 0x8_0000 * (r * one) <= 255000 * w);
    assert(-(255000 * one) <= 0x8_0000 * r <= 255000 * one) by (nonlinear_arith)
        requires
            -(255000 * w) <= 0x8_0000 * (r * one) <= 255000 * w,
            w == one * one,
            one > 0,
    ;
}

/// The share of `n` tokens that a scale gets by its area is its area's part of them, rounded down.
#[verifier::rlimit(40)]
pub proof fn lemma_area_share(scale: nat, squares: nat, n: nat)
    requires
        0 < scale,
        0 < n <= 0xffff_ffff,
        scale * scale <= squares,
        n * squares <= 0x1_0000_0000_0000,
    ensures
        ({
            let share = area_share(scale, squares, n);
            share * squares <= scale * scale * n <= (share + 1) * squares
        }),
{
    lemma_double_one();
    let one = Binary64::one_value() as int;
    let area = scale * scale;
    assert(0 < area) by (nonlinear_arith)
        requires
            area == scale * scale,
            scale > 0,
    ;
    assert(squares <= n * squares) by (nonlinear_arith)
        requires
            n >= 1,
    ;
    let (s, e, d) = (n as int, area as int, squares as int);
    assert(s * e <= s * d) by (nonlinear_arith)
        requires
            e <= d,
            s > 0,
    ;
    assert(e * s == s * e && d * s == s * d) by (nonlinear_arith);
    lemma_whole_doubles_exact(area);
    lemma_whole_doubles_exact(squares);
    lemma_whole_doubles_exact(n);
    lemma_whole_doubles_exact(0);
    lemma_whole_doubles_exact(1);
    let (a, b) = (Binary64::of_nat(area), Binary64::of_nat(squares));
    let x = Binary64::of_nat(n);
    let (zero, unit) = (Binary64::of_nat(0), Binary64::of_nat(1));
    assert(d * one > 0) by (nonlinear_arith)
        requires
            d >= 1,
            one > 0,
    ;
    assert(0 * one == 0) by (nonlinear_arith);
    assert(0 * (d * one) == 0) by (nonlinear_arith);
    assert(1 * one == one);
    assert(0 <= (e * one) * one <= one * (d * one)) by (nonlinear_arith)
        requires
            0 <= e <= d,
            one > 0,
    ;
    lemma_double_over_between(a, b, zero, unit);
    lemma_double_over_near(a, b);
    let part = a.over(b);
    let c = part.value();
    assert(c * (d * one) - (e * one) * one == (c * d - e * one) * one) by (nonlinear_arith);
    assert(0 <= c * (s * one) <= (s * one) * one) by (nonlinear_arith)
        requires
            0 <= c <= one,
            s >= 0,
            one > 0,
    ;
    lemma_double_times_between(part, x, zero, x);
    lemma_double_times_near(part, x);
    let y = part.times(x);
    let t = y.value();
    assert(t * one - c * (s * one) == (t - s * c) * one && c * (s * one) == (s * c) * one)
        by (nonlinear_arith);
    lemma_edge_off(t, c, s, e, d, one);
    let r = t / one;
    vstd::arithmetic::div_mod::lemma_fundamental_div_mod(t, one);
    assert(0 <= r <= s) by (nonlinear_arith)
        requires
            t == one * r + t % one,
            0 <= t % one < one,
            0 <= t <= s * one,
    ;
    assert(r * d <= s * e && s * e <= (r + 1) * d) by (nonlinear_arith)
        requires
            t == one * r + t % one,
            0 <= t % one < one,
            -one < 2 * (t * d - (s * e) * one) < one,
            d >= 1,
            one > 0,
    {
        assert((one * r) * d <= t * d);
        assert(t * d <= (one * r + one) * d);
        assert((one * r) * d == (r * d) * one);
        assert((one * r + one) * d == ((r + 1) * d) * one);
        assert(2 * ((r * d) * one) < 2 * ((s * e) * one) + one);
        assert((2 * (r * d)) * one < (2 * (s * e) + 1) * one);
        assert((2 * (s * e)) * one < (2 * ((r + 1) * d) + 1) * one);
    }
}

/// A count that was summed in floating point is the whole number nearest to the sum, or the most
/// that there can be.
pub proof fn lemma_whole_count(value: Binary64, max: nat)
    requires
        value.finite(),
        value.value() >= 0,
        max <= 0xffff_ffff,
    ensures
        ({
            let r = whole_count(value, max);
            let one = Binary64::one_value();
            &&& 0 <= r <= max
            &&& 2 * abs_nat(r * one - value.value()) <= one || r == max && max * one
                <= value.value()
        }),
{
    lemma_double_one();
    let one = Binary64::one_value() as int;
    lemma_rounds_to_nearest(value);
    lemma_whole_doubles_exact(max);
    lemma_rounds_to_nearest(Binary64::of_nat(max));
    let m = max as int;
    let q = Binary64::of_nat(max).round_int();
    assert(q == m) by (nonlinear_arith)
        requires
            -one <= 2 * (q * one - m * one) <= one,
            one > 0,
    {
        assert(q * one - m * one == (q - m) * one);
    }
    let r = value.round_int();
    if r > m {
        assert(r * one >= m * one + one) by (nonlinear_arith)
            requires
                r >= m + 1,
                one > 0,
        ;
    }
}

} // verus!
