//! What rounding keeps.
//!
//! The numbers of a format are in order as their bit patterns are. A number that the format holds is
//! not changed by rounding, rounding keeps the order, and what is rounded is off by at most half of
//! the last place. Everything that is stated of results of arithmetic rests on these three.
use crate::format::{abs_nat, Format, Parts};
use crate::ieee::{Binary32, Binary64};
use crate::rounding::{
    encode, excess_bits, lemma_div_bounds, lemma_excess_bits, lemma_nearest_even_scaled,
    nearest_even,
};
use vstd::arithmetic::power2::{
    lemma2_to64, lemma_pow2_adds, lemma_pow2_pos, lemma_pow2_strictly_increases, lemma_pow2_unfold,
    pow2,
};
use vstd::prelude::*;

verus! {

/// The leading bit of a number that has `excess_bits` beyond `p` bits.
proof fn lemma_leading_bit(u: nat, p: nat)
    ensures
        u < pow2(p + excess_bits(u, p)),
        excess_bits(u, p) > 0 ==> pow2((p + excess_bits(u, p) - 1) as nat) <= u,
    decreases u,
{
    lemma_pow2_pos(p);
    if u >= pow2(p) && u > 0 {
        lemma_leading_bit(u / 2, p);
        let s = excess_bits(u / 2, p);
        assert(excess_bits(u, p) == 1 + s);
        lemma_pow2_unfold(p + s + 1);
        if s > 0 {
            lemma_pow2_unfold(p + s);
        }
    }
}

/// What a quotient rounds to, taken apart: the last place and how many of them.
pub(crate) proof fn lemma_rounded_parts(f: Format, n: nat, d: nat)
    requires
        f.ok(),
        d > 0,
    ensures
        ({
            let p = f.p as nat;
            let s = excess_bits(n / d, p);
            let m = nearest_even(n, d * pow2(s));
            &&& d * pow2(s) > 0
            &&& encode(n, d, p) == s * f.hidden + m
            &&& f.units(encode(n, d, p)) == m * pow2(s)
            &&& m <= 2 * f.hidden
            &&& s > 0 ==> m >= f.hidden
            &&& s > 0 ==> f.hidden * (d * pow2(s)) <= n
            &&& n < 2 * f.hidden * (d * pow2(s))
        }),
{
    f.lemma_constants();
    let p = f.p as nat;
    let h = f.hidden as nat;
    let q = n / d;
    let s = excess_bits(q, p);
    let e = pow2(s);
    let w = d * e;
    lemma_pow2_pos(s);
    lemma_leading_bit(q, p);
    lemma_pow2_adds(p, s);
    if s > 0 {
        lemma_pow2_adds((p - 1) as nat, s);
    }
    vstd::arithmetic::div_mod::lemma_fundamental_div_mod(n as int, d as int);
    assert(w > 0) by (nonlinear_arith)
        requires
            w == d * e,
            d > 0,
            e > 0,
    ;
    assert(n < (2 * h) * w) by (nonlinear_arith)
        requires
            n == d * q + n % d,
            n % d < d,
            q + 1 <= (2 * h) * e,
            w == d * e,
            d > 0,
    ;
    if s > 0 {
        assert(h * w <= n) by (nonlinear_arith)
            requires
                n == d * q + n % d,
                n % d >= 0,
                h * e <= q,
                w == d * e,
                d > 0,
        ;
        lemma_div_bounds(n, w, h, 2 * h);
    } else {
        assert(0 * w <= n) by (nonlinear_arith);
        lemma_div_bounds(n, w, 0, 2 * h);
    }
    let m = nearest_even(n, w);
    let code = s * h + m;
    assert(encode(n, d, p) == code);
    if m == 2 * h {
        assert(code == (s + 2) * h + 0) by (nonlinear_arith)
            requires
                code == s * h + m,
                m == 2 * h,
        ;
        vstd::arithmetic::div_mod::lemma_fundamental_div_mod_converse(
            code as int,
            h as int,
            (s + 2) as int,
            0,
        );
        lemma_pow2_unfold(s + 1);
        assert(code >= h) by (nonlinear_arith)
            requires
                code == (s + 2) * h,
        ;
        assert(h * pow2(s + 1) == m * e) by (nonlinear_arith)
            requires
                pow2(s + 1) == 2 * e,
                m == 2 * h,
        ;
    } else if m >= h {
        assert(code == (s + 1) * h + (m - h)) by (nonlinear_arith)
            requires
                code == s * h + m,
        ;
        vstd::arithmetic::div_mod::lemma_fundamental_div_mod_converse(
            code as int,
            h as int,
            (s + 1) as int,
            m - h,
        );
        assert(code >= h) by (nonlinear_arith)
            requires
                code == s * h + m,
                m >= h,
        ;
    } else {
        assert(s == 0);
        assert(0 * h == 0) by (nonlinear_arith);
    }
}

/// The significand and the exponent of a number, from its bit pattern.
pub(crate) proof fn lemma_magnitude_parts(f: Format, magnitude: nat)
    requires
        f.ok(),
    ensures
        magnitude == f.shift(magnitude) * f.hidden + f.significand(magnitude),
        f.significand(magnitude) < 2 * f.hidden,
        f.shift(magnitude) > 0 ==> f.significand(magnitude) >= f.hidden,
        magnitude >= f.hidden ==> f.significand(magnitude) >= f.hidden,
{
    f.lemma_constants();
    let h = f.hidden as int;
    vstd::arithmetic::div_mod::lemma_fundamental_div_mod(magnitude as int, h);
    if magnitude >= f.hidden {
        let e = magnitude as int / h;
        assert(e >= 1) by (nonlinear_arith)
            requires
                magnitude == h * e + magnitude as int % h,
                0 <= magnitude as int % h < h,
                magnitude >= h,
        ;
        assert(magnitude == (e - 1) * h + (h + magnitude as int % h)) by (nonlinear_arith)
            requires
                magnitude == h * e + magnitude as int % h,
        ;
    } else {
        assert(0 * h == 0) by (nonlinear_arith);
    }
}

/// The numbers of a format are in order as their bit patterns are.
pub(crate) proof fn lemma_units_ordered(f: Format, a: nat, b: nat)
    requires
        f.ok(),
    ensures
        a < b <==> f.units(a) < f.units(b),
        a == b <==> f.units(a) == f.units(b),
{
    if a < b {
        lemma_units_increase(f, a, b);
    } else if b < a {
        lemma_units_increase(f, b, a);
    }
}

proof fn lemma_units_increase(f: Format, a: nat, b: nat)
    requires
        f.ok(),
        a < b,
    ensures
        f.units(a) < f.units(b),
{
    lemma_magnitude_parts(f, a);
    lemma_magnitude_parts(f, b);
    let h = f.hidden as nat;
    let (s, t) = (f.shift(a), f.shift(b));
    let (m, k) = (f.significand(a), f.significand(b));
    lemma_pow2_pos(s);
    lemma_pow2_pos(t);
    f.lemma_constants();
    if s == t {
        assert(m * pow2(s) < k * pow2(s)) by (nonlinear_arith)
            requires
                m < k,
                pow2(s) > 0,
        ;
    } else if s < t {
        let rest = (t - s - 1) as nat;
        lemma_pow2_adds(s + 1, rest);
        lemma_pow2_unfold(s + 1);
        lemma_pow2_pos(rest);
        assert(m * pow2(s) < k * pow2(t)) by (nonlinear_arith)
            requires
                m < 2 * h,
                k >= h,
                pow2(t) == 2 * pow2(s) * pow2(rest),
                pow2(rest) >= 1,
                pow2(s) > 0,
        ;
    } else {
        assert(false) by (nonlinear_arith)
            requires
                s * h + m < t * h + k,
                s >= t + 1,
                k < 2 * h,
                m >= h,
        ;
    }
}

/// A number that the format holds is not changed by rounding.
pub(crate) proof fn lemma_held_exactly(f: Format, magnitude: nat)
    requires
        f.ok(),
    ensures
        encode(f.units(magnitude), 1, f.p as nat) == magnitude,
{
    f.lemma_constants();
    lemma_magnitude_parts(f, magnitude);
    let p = f.p as nat;
    let h = f.hidden as nat;
    let (m, s) = (f.significand(magnitude), f.shift(magnitude));
    let e = pow2(s);
    let u = f.units(magnitude);
    lemma_pow2_pos(s);
    lemma_pow2_adds(p, s);
    assert(u / 1 == u);
    assert(u < (2 * h) * e) by (nonlinear_arith)
        requires
            u == m * e,
            m < 2 * h,
            e > 0,
    ;
    if s > 0 {
        lemma_pow2_adds((p - 1) as nat, s);
        assert(h * e <= u) by (nonlinear_arith)
            requires
                u == m * e,
                m >= h,
                e > 0,
        ;
    }
    lemma_excess_bits(u, p, s);
    assert(1 * e == e);
    vstd::arithmetic::div_mod::lemma_fundamental_div_mod_converse(u as int, e as int, m as int, 0);
}

/// The nearest whole number keeps the order.
proof fn lemma_nearest_even_ordered(a: nat, b: nat, d: nat)
    requires
        d > 0,
        a <= b,
    ensures
        nearest_even(a, d) <= nearest_even(b, d),
{
    let (q, r) = ((a / d) as int, (a % d) as int);
    let (k, t) = ((b / d) as int, (b % d) as int);
    vstd::arithmetic::div_mod::lemma_fundamental_div_mod(a as int, d as int);
    vstd::arithmetic::div_mod::lemma_fundamental_div_mod(b as int, d as int);
    assert(q <= k && (q == k ==> r <= t)) by (nonlinear_arith)
        requires
            a == d * q + r,
            b == d * k + t,
            0 <= r < d,
            0 <= t < d,
            a <= b,
    ;
}

/// Rounding keeps the order.
pub(crate) proof fn lemma_rounding_ordered(f: Format, n1: nat, d1: nat, n2: nat, d2: nat)
    requires
        f.ok(),
        d1 > 0,
        d2 > 0,
        n1 * d2 <= n2 * d1,
    ensures
        encode(n1, d1, f.p as nat) <= encode(n2, d2, f.p as nat),
{
    let p = f.p as nat;
    let h = f.hidden as nat;
    let (q1, q2) = (n1 / d1, n2 / d2);
    vstd::arithmetic::div_mod::lemma_fundamental_div_mod(n1 as int, d1 as int);
    vstd::arithmetic::div_mod::lemma_fundamental_div_mod(n2 as int, d2 as int);
    assert(q1 <= q2) by (nonlinear_arith)
        requires
            n1 * d2 <= n2 * d1,
            n1 == d1 * q1 + n1 % d1,
            n2 == d2 * q2 + n2 % d2,
            n1 % d1 >= 0,
            n2 % d2 < d2,
            d1 > 0,
            d2 > 0,
    ;
    lemma_rounded_parts(f, n1, d1);
    lemma_rounded_parts(f, n2, d2);
    lemma_excess_ordered(q1, q2, p);
    let (s1, s2) = (excess_bits(q1, p), excess_bits(q2, p));
    if s1 == s2 {
        let e = pow2(s1);
        let (w1, w2) = (d1 * e, d2 * e);
        lemma_nearest_even_scaled(n1, w1, d2);
        lemma_nearest_even_scaled(n2, w2, d1);
        assert(w1 * d2 == w2 * d1) by (nonlinear_arith)
            requires
                w1 == d1 * e,
                w2 == d2 * e,
        ;
        assert(w1 * d2 > 0) by (nonlinear_arith)
            requires
                w1 > 0,
                d2 > 0,
        ;
        lemma_nearest_even_ordered(n1 * d2, n2 * d1, w1 * d2);
    } else {
        let m1 = nearest_even(n1, d1 * pow2(s1));
        let m2 = nearest_even(n2, d2 * pow2(s2));
        assert(s1 * h + m1 <= s2 * h + m2) by (nonlinear_arith)
            requires
                s1 + 1 <= s2,
                m1 <= 2 * h,
                m2 >= h,
        ;
    }
}

proof fn lemma_excess_ordered(a: nat, b: nat, p: nat)
    requires
        a <= b,
    ensures
        excess_bits(a, p) <= excess_bits(b, p),
    decreases b,
{
    lemma_pow2_pos(p);
    if a >= pow2(p) {
        lemma_excess_ordered(a / 2, b / 2, p);
    }
}

/// What is rounded is off by at most half of the last place: by at most half a unit, or by at most
/// the part that the significand has no digits for.
pub(crate) proof fn lemma_rounding_near(f: Format, n: nat, d: nat)
    requires
        f.ok(),
        d > 0,
    ensures
        ({
            let off = abs_nat(f.units(encode(n, d, f.p as nat)) * d - n);
            ||| 2 * off <= d
            ||| 2 * f.hidden * off <= n
        }),
{
    lemma_rounded_parts(f, n, d);
    let p = f.p as nat;
    let s = excess_bits(n / d, p);
    let e = pow2(s);
    let w = d * e;
    let m = nearest_even(n, w);
    let h = f.hidden as nat;
    f.lemma_constants();
    let q = n / w;
    vstd::arithmetic::div_mod::lemma_fundamental_div_mod(n as int, w as int);
    assert((q + 1) * w == q * w + w) by (nonlinear_arith);
    assert(w * q == q * w) by (nonlinear_arith);
    let off = abs_nat(m * w - n);
    assert(2 * off <= w);
    assert((m * e) * d == m * w) by (nonlinear_arith)
        requires
            w == d * e,
    ;
    if s > 0 {
        assert(2 * h * off <= n) by (nonlinear_arith)
            requires
                2 * off <= w,
                h * w <= n,
        ;
    } else {
        assert(w == d) by (nonlinear_arith)
            requires
                w == d * e,
                e == 1,
        ;
    }
}

/// What lies between two numbers of the format rounds to a number between them.
pub(crate) proof fn lemma_round_between(f: Format, n: nat, d: nat, lo: nat, hi: nat)
    requires
        f.ok(),
        d > 0,
        f.units(lo) * d <= n <= f.units(hi) * d,
        hi < f.infinity(),
    ensures
        lo <= f.round(n, d) <= hi,
{
    lemma_held_exactly(f, lo);
    lemma_held_exactly(f, hi);
    lemma_rounding_ordered(f, f.units(lo), 1, n, d);
    lemma_rounding_ordered(f, n, d, f.units(hi), 1);
}

/// A magnitude with a sign lies between two numbers where its value does.
proof fn lemma_signed_between(f: Format, negative: bool, n: nat, d: nat, lo: Parts, hi: Parts)
    requires
        f.ok(),
        d > 0,
        f.is_finite(lo),
        f.is_finite(hi),
        f.value(lo) * d <= (if negative {
            -(n as int)
        } else {
            n as int
        }) <= f.value(hi) * d,
    ensures
        ({
            let r = Parts { negative, magnitude: f.round(n, d) as u64 };
            &&& f.is_finite(r)
            &&& f.value(lo) <= f.value(r) <= f.value(hi)
            &&& r.magnitude == f.round(n, d)
        }),
{
    f.lemma_constants();
    let (l, h) = (f.value(lo), f.value(hi));
    let (a, b) = (lo.magnitude as nat, hi.magnitude as nat);
    lemma_units_zero(f);
    lemma_units_ordered(f, 0, f.round(n, d));
    lemma_units_ordered(f, a, f.round(n, d));
    lemma_units_ordered(f, b, f.round(n, d));
    lemma_units_ordered(f, f.round(n, d), a);
    lemma_units_ordered(f, f.round(n, d), b);
    let (la, hb) = (l * d, h * d);
    assert(l < 0 ==> la < 0) by (nonlinear_arith)
        requires
            la == l * d,
            d > 0,
    ;
    assert(h > 0 ==> hb > 0) by (nonlinear_arith)
        requires
            hb == h * d,
            d > 0,
    ;
    assert(l > 0 ==> la > 0) by (nonlinear_arith)
        requires
            la == l * d,
            d > 0,
    ;
    assert(h < 0 ==> hb < 0) by (nonlinear_arith)
        requires
            hb == h * d,
            d > 0,
    ;
    assert(l == 0 ==> la == 0) by (nonlinear_arith)
        requires
            la == l * d,
    ;
    assert(h == 0 ==> hb == 0) by (nonlinear_arith)
        requires
            hb == h * d,
    ;
    assert((-l) * d == -la) by (nonlinear_arith)
        requires
            la == l * d,
    ;
    assert((-h) * d == -hb) by (nonlinear_arith)
        requires
            hb == h * d,
    ;
    assert(0 * d == 0) by (nonlinear_arith);
    if n == 0 {
        assert(f.units(0) * d == 0) by (nonlinear_arith)
            requires
                f.units(0) == 0,
        ;
        lemma_round_between(f, n, d, 0, 0);
    } else if negative {
        assert(l < 0);
        assert(f.units(a) == -l);
        if h < 0 {
            lemma_round_between(f, n, d, b, a);
        } else {
            assert(f.units(0) * d == 0) by (nonlinear_arith)
                requires
                    f.units(0) == 0,
            ;
            lemma_round_between(f, n, d, 0, a);
        }
    } else {
        assert(h > 0);
        assert(f.units(b) == h);
        if l > 0 {
            lemma_round_between(f, n, d, a, b);
        } else {
            assert(f.units(0) * d == 0) by (nonlinear_arith)
                requires
                    f.units(0) == 0,
            ;
            lemma_round_between(f, n, d, 0, b);
        }
    }
}

proof fn lemma_units_zero(f: Format)
    requires
        f.ok(),
    ensures
        f.units(0) == 0,
{
    f.lemma_constants();
    assert(0 * pow2(0) == 0) by (nonlinear_arith);
}

/// The sum lies between any two numbers that the exact sum lies between.
pub(crate) proof fn lemma_sum_between(f: Format, a: Parts, b: Parts, lo: Parts, hi: Parts)
    requires
        f.ok(),
        f.is_finite(a),
        f.is_finite(b),
        f.is_finite(lo),
        f.is_finite(hi),
        f.value(lo) <= f.value(a) + f.value(b) <= f.value(hi),
    ensures
        f.is_finite(f.sum(a, b)),
        f.value(lo) <= f.value(f.sum(a, b)) <= f.value(hi),
{
    f.lemma_constants();
    lemma_units_zero(f);
    let v = f.value(a) + f.value(b);
    if v != 0 {
        lemma_signed_between(f, v < 0, abs_nat(v), 1, lo, hi);
    }
}

/// The product lies between any two numbers that the exact product lies between.
pub(crate) proof fn lemma_product_between(f: Format, a: Parts, b: Parts, lo: Parts, hi: Parts)
    requires
        f.ok(),
        f.is_finite(a),
        f.is_finite(b),
        f.is_finite(lo),
        f.is_finite(hi),
        f.value(lo) * pow2(f.bias as nat) <= f.value(a) * f.value(b) <= f.value(hi) * pow2(
            f.bias as nat,
        ),
    ensures
        f.is_finite(f.product(a, b)),
        f.value(lo) <= f.value(f.product(a, b)) <= f.value(hi),
{
    let d = pow2(f.bias as nat);
    lemma_pow2_pos(f.bias as nat);
    let (x, y) = (f.units(a.magnitude as nat), f.units(b.magnitude as nat));
    let n = x * y;
    let negative = a.negative != b.negative;
    assert(f.value(a) * f.value(b) == if negative {
        -(n as int)
    } else {
        n as int
    }) by {
        let (xi, yi) = (x as int, y as int);
        assert((-xi) * yi == -(xi * yi) && xi * (-yi) == -(xi * yi) && (-xi) * (-yi) == xi * yi)
            by (nonlinear_arith);
    }
    lemma_signed_between(f, negative, n, d, lo, hi);
}

/// The quotient lies between any two numbers that the exact quotient lies between.
pub(crate) proof fn lemma_quotient_between(f: Format, a: Parts, b: Parts, lo: Parts, hi: Parts)
    requires
        f.ok(),
        f.is_finite(a),
        f.is_finite(b),
        f.is_finite(lo),
        f.is_finite(hi),
        f.value(b) > 0,
        f.value(lo) * f.value(b) <= f.value(a) * pow2(f.bias as nat) <= f.value(hi) * f.value(b),
    ensures
        f.is_finite(f.quotient(a, b)),
        f.value(lo) <= f.value(f.quotient(a, b)) <= f.value(hi),
{
    let one = pow2(f.bias as nat);
    lemma_units_zero(f);
    let d = f.units(b.magnitude as nat);
    let x = f.units(a.magnitude as nat);
    let n = x * one;
    assert(f.value(a) * one == if a.negative {
        -(n as int)
    } else {
        n as int
    }) by {
        let (xi, oi) = (x as int, one as int);
        assert((-xi) * oi == -(xi * oi)) by (nonlinear_arith);
    }
    lemma_signed_between(f, a.negative, n, d, lo, hi);
}

/// The sum is off by at most half of the last place.
pub(crate) proof fn lemma_sum_near(f: Format, a: Parts, b: Parts)
    requires
        f.ok(),
        f.is_finite(a),
        f.is_finite(b),
        f.is_finite(f.sum(a, b)),
    ensures
        2 * f.hidden * abs_nat(f.value(f.sum(a, b)) - (f.value(a) + f.value(b))) <= abs_nat(
            f.value(a) + f.value(b),
        ),
{
    f.lemma_constants();
    lemma_units_zero(f);
    let v = f.value(a) + f.value(b);
    if v != 0 {
        let n = abs_nat(v);
        lemma_rounding_near(f, n, 1);
        let off = abs_nat(f.units(f.round(n, 1)) - n);
        assert(f.round(n, 1) == encode(n, 1, f.p as nat));
        assert(2 * f.hidden * off <= n) by {
            if 2 * off <= 1 {
                assert(2 * f.hidden * off == 0) by (nonlinear_arith)
                    requires
                        off == 0,
                ;
            }
        }
    } else {
        assert(2 * f.hidden * 0 == 0) by (nonlinear_arith);
    }
}

/// The product is off by at most half of the last place, or by half a unit.
pub(crate) proof fn lemma_product_near(f: Format, a: Parts, b: Parts)
    requires
        f.ok(),
        f.is_finite(a),
        f.is_finite(b),
        f.is_finite(f.product(a, b)),
    ensures
        ({
            let one = pow2(f.bias as nat);
            let exact = f.value(a) * f.value(b);
            let off = abs_nat(f.value(f.product(a, b)) * one - exact);
            2 * off <= one || 2 * f.hidden * off <= abs_nat(exact)
        }),
{
    f.lemma_constants();
    let one = pow2(f.bias as nat);
    lemma_pow2_pos(f.bias as nat);
    let (x, y) = (f.units(a.magnitude as nat), f.units(b.magnitude as nat));
    let n = x * y;
    let (xi, yi) = (x as int, y as int);
    assert((-xi) * yi == -(xi * yi) && xi * (-yi) == -(xi * yi) && (-xi) * (-yi) == xi * yi)
        by (nonlinear_arith);
    assert(n >= 0 && n == xi * yi);
    lemma_rounding_near(f, n, one);
    let r = f.units(f.round(n, one)) as int;
    assert((-r) * one == -(r * one)) by (nonlinear_arith);
    assert(f.round(n, one) == encode(n, one, f.p as nat));
}

/// The quotient is off by at most half of the last place, or by half a unit.
pub(crate) proof fn lemma_quotient_near(f: Format, a: Parts, b: Parts)
    requires
        f.ok(),
        f.is_finite(a),
        f.is_finite(b),
        f.value(b) > 0,
        f.is_finite(f.quotient(a, b)),
    ensures
        ({
            let one = pow2(f.bias as nat);
            let exact = f.value(a) * one;
            let off = abs_nat(f.value(f.quotient(a, b)) * f.value(b) - exact);
            2 * off <= f.value(b) || 2 * f.hidden * off <= abs_nat(exact)
        }),
{
    f.lemma_constants();
    lemma_units_zero(f);
    let one = pow2(f.bias as nat);
    let d = f.units(b.magnitude as nat);
    let x = f.units(a.magnitude as nat);
    let n = x * one;
    let (xi, oi, di) = (x as int, one as int, d as int);
    assert((-xi) * oi == -(xi * oi)) by (nonlinear_arith);
    lemma_rounding_near(f, n, d);
    let r = f.units(f.round(n, d)) as int;
    assert((-r) * di == -(r * di)) by (nonlinear_arith);
    assert(f.round(n, d) == encode(n, d, f.p as nat));
}

/// Numbers of single precision are in order as their values are.
pub proof fn lemma_single_ordered(a: Binary32, b: Binary32)
    requires
        a.finite(),
        b.finite(),
    ensures
        a.lt(b) <==> a.value() < b.value(),
        a.le(b) <==> a.value() <= b.value(),
{
    let f = Binary32::format();
    f.lemma_constants();
    lemma_units_zero(f);
    let (x, y) = (a.parts().magnitude as nat, b.parts().magnitude as nat);
    lemma_units_ordered(f, x, y);
    lemma_units_ordered(f, y, x);
    lemma_units_ordered(f, 0, x);
    lemma_units_ordered(f, 0, y);
}

/// The sum lies between any two numbers that the exact sum lies between.
pub proof fn lemma_single_plus_between(a: Binary32, b: Binary32, lo: Binary32, hi: Binary32)
    requires
        a.finite(),
        b.finite(),
        lo.finite(),
        hi.finite(),
        lo.value() <= a.value() + b.value() <= hi.value(),
    ensures
        a.plus(b).finite(),
        lo.value() <= a.plus(b).value() <= hi.value(),
{
    Binary32::format().lemma_constants();
    lemma_sum_between(Binary32::format(), a.parts(), b.parts(), lo.parts(), hi.parts());
}

/// The product lies between any two numbers that the exact product lies between.
pub proof fn lemma_single_times_between(a: Binary32, b: Binary32, lo: Binary32, hi: Binary32)
    requires
        a.finite(),
        b.finite(),
        lo.finite(),
        hi.finite(),
        lo.value() * Binary32::one_value() <= a.value() * b.value() <= hi.value()
            * Binary32::one_value(),
    ensures
        a.times(b).finite(),
        lo.value() <= a.times(b).value() <= hi.value(),
{
    Binary32::format().lemma_constants();
    lemma_product_between(Binary32::format(), a.parts(), b.parts(), lo.parts(), hi.parts());
}

/// The quotient lies between any two numbers that the exact quotient lies between.
pub proof fn lemma_single_over_between(a: Binary32, b: Binary32, lo: Binary32, hi: Binary32)
    requires
        a.finite(),
        b.finite(),
        lo.finite(),
        hi.finite(),
        b.value() > 0,
        lo.value() * b.value() <= a.value() * Binary32::one_value() <= hi.value() * b.value(),
    ensures
        a.over(b).finite(),
        lo.value() <= a.over(b).value() <= hi.value(),
{
    Binary32::format().lemma_constants();
    lemma_quotient_between(Binary32::format(), a.parts(), b.parts(), lo.parts(), hi.parts());
}

/// A multiple of a power of two that has no more digits than the format keeps is a number of it.
pub(crate) proof fn lemma_held(f: Format, g: nat, e: nat) -> (m: nat)
    requires
        f.ok(),
        g <= 2 * f.hidden,
        e + 3 <= f.top,
    ensures
        m < f.infinity(),
        f.units(m) == g * pow2(e),
    decreases e,
{
    f.lemma_constants();
    let h = f.hidden as nat;
    let top = f.top as nat;
    if g == 2 * h {
        lemma_pow2_unfold(e + 1);
        let (q, r) = (pow2(e), pow2(e + 1));
        assert(g * q == h * r) by (nonlinear_arith)
            requires
                g == 2 * h,
                r == 2 * q,
        ;
        let m = (e + 2) * h;
        assert(m < top * h) by (nonlinear_arith)
            requires
                m == (e + 2) * h,
                e + 3 <= top,
                h > 0,
        ;
        vstd::arithmetic::div_mod::lemma_fundamental_div_mod_converse(
            m as int,
            h as int,
            (e + 2) as int,
            0,
        );
        assert(m >= h) by (nonlinear_arith)
            requires
                m == (e + 2) * h,
        ;
        m
    } else if g >= h {
        let m = e * h + g;
        assert(m < top * h) by (nonlinear_arith)
            requires
                m == e * h + g,
                g < 2 * h,
                e + 3 <= top,
        ;
        assert(m == (e + 1) * h + (g - h)) by (nonlinear_arith)
            requires
                m == e * h + g,
        ;
        vstd::arithmetic::div_mod::lemma_fundamental_div_mod_converse(
            m as int,
            h as int,
            (e + 1) as int,
            g - h,
        );
        assert(m >= h) by (nonlinear_arith)
            requires
                m == e * h + g,
                g >= h,
        ;
        m
    } else if e == 0 {
        assert(g < top * h) by (nonlinear_arith)
            requires
                g < h,
                top >= 3,
        ;
        g
    } else {
        lemma_pow2_unfold(e);
        let (q, r) = (pow2((e - 1) as nat), pow2(e));
        assert((2 * g) * q == g * r) by (nonlinear_arith)
            requires
                r == 2 * q,
        ;
        lemma_held(f, 2 * g, (e - 1) as nat)
    }
}

/// A multiple of a power of two of no more than 24 digits is a number of single precision.
pub proof fn lemma_single_held(g: nat, e: nat) -> (c: Binary32)
    requires
        g <= 0x100_0000,
        e <= 252,
    ensures
        c.finite(),
        c.value() == g * pow2(e),
        !c.parts().negative,
{
    let f = Binary32::format();
    f.lemma_constants();
    let m = lemma_held(f, g, e);
    Binary32::of_parts(Parts { negative: false, magnitude: m as u64 })
}

/// A whole number of no more than 24 digits is a number of single precision.
pub proof fn lemma_single_whole(n: nat)
    requires
        n <= 0x100_0000,
    ensures
        Binary32::of_nat(n).finite(),
        Binary32::of_nat(n).value() == n * Binary32::one_value(),
{
    let f = Binary32::format();
    f.lemma_constants();
    let m = lemma_held(f, n, 149);
    lemma_held_exactly(f, m);
}

/// Quotients of numbers in one ratio are one number.
pub proof fn lemma_single_over_same_ratio(a: Binary32, b: Binary32, c: Binary32, d: Binary32)
    requires
        a.finite(),
        b.finite(),
        c.finite(),
        d.finite(),
        a.value() > 0,
        b.value() > 0,
        c.value() > 0,
        d.value() > 0,
        a.value() * d.value() == c.value() * b.value(),
    ensures
        a.over(b) == c.over(d),
{
    let f = Binary32::format();
    f.lemma_constants();
    lemma_units_zero(f);
    let one = pow2(149);
    lemma_pow2_pos(149);
    let (x, y) = (a.value(), b.value());
    let (z, w) = (c.value(), d.value());
    assert((x * one) * w == (z * one) * y) by (nonlinear_arith)
        requires
            x * w == z * y,
    ;
    lemma_rounding_ordered(f, (x * one) as nat, y as nat, (z * one) as nat, w as nat);
    lemma_rounding_ordered(f, (z * one) as nat, w as nat, (x * one) as nat, y as nat);
}

/// A sum that is a number comes of two numbers.
pub proof fn lemma_single_plus_of_numbers(a: Binary32, b: Binary32)
    requires
        a.plus(b).finite(),
    ensures
        a.finite(),
        b.finite(),
{
    Binary32::format().lemma_constants();
}

/// A sum that is not negative is the exact sum rounded.
proof fn lemma_sum_rounded(f: Format, a: Parts, b: Parts)
    requires
        f.ok(),
        f.is_finite(a),
        f.is_finite(b),
        f.value(a) + f.value(b) >= 0,
    ensures
        ({
            let v = (f.value(a) + f.value(b)) as nat;
            &&& f.sum(a, b).magnitude == f.round(v, 1)
            &&& f.value(f.sum(a, b)) == f.units(f.round(v, 1))
        }),
{
    f.lemma_constants();
    lemma_units_zero(f);
    let v = (f.value(a) + f.value(b)) as nat;
    if v == 0 {
        lemma_held_exactly(f, 0);
    }
}

/// Sums that are not negative are in order as the exact sums are.
#[verifier::rlimit(40)]
pub proof fn lemma_single_plus_ordered(a: Binary32, b: Binary32, c: Binary32, d: Binary32)
    requires
        c.plus(d).finite(),
        a.finite(),
        b.finite(),
        0 <= a.value() + b.value() <= c.value() + d.value(),
    ensures
        a.plus(b).finite(),
        0 <= a.plus(b).value() <= c.plus(d).value(),
{
    let f = Binary32::format();
    f.lemma_constants();
    lemma_single_plus_of_numbers(c, d);
    lemma_sum_rounded(f, a.parts(), b.parts());
    lemma_sum_rounded(f, c.parts(), d.parts());
    let (v, w) = ((a.value() + b.value()) as nat, (c.value() + d.value()) as nat);
    lemma_rounding_ordered(f, v, 1, w, 1);
    lemma_units_ordered(f, f.round(v, 1), f.round(w, 1));
    lemma_single_sum_parts(a, b);
    lemma_single_sum_parts(c, d);
}

/// The sum of numbers of single precision, taken apart.
proof fn lemma_single_sum_parts(a: Binary32, b: Binary32)
    requires
        a.finite(),
        b.finite(),
    ensures
        a.plus(b).parts() == Binary32::format().sum(a.parts(), b.parts()),
{
    let f = Binary32::format();
    f.lemma_constants();
    let sum = f.sum(a.parts(), b.parts());
    assert(sum.magnitude <= f.infinity());
}

/// Adding what is not negative to what is not negative gives no less than either.
#[verifier::rlimit(40)]
pub proof fn lemma_single_plus_grows(a: Binary32, b: Binary32)
    requires
        a.plus(b).finite(),
        a.value() >= 0,
        b.value() >= 0,
    ensures
        a.value() <= a.plus(b).value(),
        b.value() <= a.plus(b).value(),
{
    let f = Binary32::format();
    f.lemma_constants();
    lemma_units_zero(f);
    lemma_single_plus_of_numbers(a, b);
    let zero = Binary32::of_parts(Parts { negative: false, magnitude: 0 });
    assert(zero.finite() && zero.value() == 0);
    lemma_single_plus_ordered(a, zero, a, b);
    lemma_single_plus_between(a, zero, a, a);
    lemma_single_plus_ordered(b, zero, a, b);
    lemma_single_plus_between(b, zero, b, b);
}

/// The quotient of a number and one that is no larger is not below one.
pub proof fn lemma_single_over_at_least_one(a: Binary32, b: Binary32)
    requires
        a.finite(),
        b.finite(),
        a.over(b).finite(),
        0 < b.value() <= a.value(),
    ensures
        Binary32::one_value() <= a.over(b).value(),
{
    let f = Binary32::format();
    f.lemma_constants();
    lemma_units_zero(f);
    let one = pow2(149);
    lemma_pow2_pos(149);
    let m = lemma_held(f, 1, 149);
    lemma_held_exactly(f, m);
    assert(1 * one == one);
    let (x, y) = (a.value() as nat, b.value() as nat);
    assert(one * y <= (x * one) * 1) by (nonlinear_arith)
        requires
            y <= x,
    ;
    lemma_rounding_ordered(f, one, 1, x * one, y);
    lemma_units_ordered(f, m, f.round(x * one, y));
}

/// Two numbers that differ, differ by at least a last place of the larger.
pub(crate) proof fn lemma_units_apart(f: Format, a: nat, b: nat)
    requires
        f.ok(),
        a < b < f.infinity(),
    ensures
        f.units(b) <= 2 * f.hidden * (f.units(b) - f.units(a)),
{
    f.lemma_constants();
    lemma_units_ordered(f, a, b);
    lemma_units_ordered(f, b, a);
    lemma_magnitude_parts(f, a);
    lemma_magnitude_parts(f, b);
    let h = f.hidden as int;
    let (ga, gb) = (f.significand(a) as int, f.significand(b) as int);
    let (sa, sb) = (f.shift(a), f.shift(b));
    let (pa, pb) = (pow2(sa) as int, pow2(sb) as int);
    lemma_pow2_pos(sa);
    lemma_pow2_pos(sb);
    let d = f.units(b) - f.units(a);
    if sb == 0 {
        assert(gb * pb == gb) by (nonlinear_arith)
            requires
                pb == 1,
        ;
        assert(2 * h <= 2 * h * d) by (nonlinear_arith)
            requires
                h > 0,
                d >= 1,
        ;
    } else if sa == sb {
        assert(d == (gb - ga) * pb) by (nonlinear_arith)
            requires
                d == gb * pb - ga * pb,
        ;
        assert(d >= pb) by (nonlinear_arith)
            requires
                d == (gb - ga) * pb,
                gb - ga >= 1,
                pb > 0,
        ;
        assert(gb * pb <= 2 * h * pb) by (nonlinear_arith)
            requires
                gb < 2 * h,
                pb > 0,
        ;
        assert(2 * h * pb <= 2 * h * d) by (nonlinear_arith)
            requires
                d >= pb,
                h > 0,
        ;
    } else if sa < sb {
        let q = pow2((sb - 1) as nat) as int;
        lemma_pow2_pos((sb - 1) as nat);
        lemma_pow2_unfold(sb);
        if sa < sb - 1 {
            lemma_pow2_strictly_increases(sa, (sb - 1) as nat);
        }
        assert(ga * pa <= (2 * h - 1) * q) by (nonlinear_arith)
            requires
                0 <= ga <= 2 * h - 1,
                0 <= pa <= q,
        ;
        let x = 2 * gb - 2 * h;
        assert(gb * pb == (x + 2 * h) * q) by (nonlinear_arith)
            requires
                x == 2 * gb - 2 * h,
                pb == 2 * q,
        ;
        assert((x + 2 * h) * q - (2 * h - 1) * q == (x + 1) * q) by (nonlinear_arith);
        assert(d >= (x + 1) * q);
        assert((x + 2 * h) * q <= 2 * h * ((x + 1) * q)) by (nonlinear_arith)
            requires
                x >= 0,
                h >= 1,
                q > 0,
        ;
        assert(2 * h * ((x + 1) * q) <= 2 * h * d) by (nonlinear_arith)
            requires
                d >= (x + 1) * q,
                h >= 1,
        ;
    } else {
        let q = pow2((sa - 1) as nat) as int;
        lemma_pow2_pos((sa - 1) as nat);
        lemma_pow2_unfold(sa);
        if sb < sa - 1 {
            lemma_pow2_strictly_increases(sb, (sa - 1) as nat);
        }
        assert(gb * pb < 2 * h * q) by (nonlinear_arith)
            requires
                0 <= gb < 2 * h,
                0 < pb <= q,
        ;
        assert(ga * pa >= 2 * h * q) by (nonlinear_arith)
            requires
                ga >= h,
                pa == 2 * q,
                q > 0,
        ;
    }
}

/// The quotient of a number and a larger one lies below one.
#[verifier::rlimit(40)]
pub proof fn lemma_single_over_below_one(a: Binary32, b: Binary32)
    requires
        a.finite(),
        b.finite(),
        0 <= a.value() < b.value(),
    ensures
        a.over(b).finite(),
        0 <= a.over(b).value() < Binary32::one_value(),
{
    let f = Binary32::format();
    f.lemma_constants();
    lemma_units_zero(f);
    let (x, y) = (a.parts().magnitude as nat, b.parts().magnitude as nat);
    lemma_units_ordered(f, x, y);
    lemma_units_ordered(f, y, x);
    lemma_units_ordered(f, 0, x);
    lemma_units_ordered(f, 0, y);
    lemma_units_apart(f, x, y);
    let lo = Binary32::of_parts(Parts { negative: false, magnitude: 0 });
    let hi = Binary32::of_parts(Parts { negative: false, magnitude: 0x3f7f_ffff });
    lemma_below_one();
    let one = Binary32::one_value() as int;
    let (u, v) = (a.value(), b.value());
    let m = 0x100_0000int;
    assert(u * one <= hi.value() * v) by (nonlinear_arith)
        requires
            v <= m * (v - u),
            m == 0x100_0000,
            m * hi.value() == (m - 1) * one,
            one > 0,
    {
        assert(m * u <= (m - 1) * v);
        assert(one * (m * u) <= one * ((m - 1) * v));
        assert(m * (u * one) == one * (m * u));
        assert(m * (hi.value() * v) == (m * hi.value()) * v);
        assert(((m - 1) * one) * v == one * ((m - 1) * v));
    }
    assert(0 * v == 0) by (nonlinear_arith);
    assert(0 <= u * one) by (nonlinear_arith)
        requires
            u >= 0,
            one > 0,
    ;
    lemma_single_over_between(a, b, lo, hi);
}

proof fn lemma_below_one()
    ensures
        ({
            let hi = Binary32::of_parts(Parts { negative: false, magnitude: 0x3f7f_ffff });
            &&& hi.finite()
            &&& 0x100_0000 * hi.value() == 0xff_ffff * Binary32::one_value()
            &&& Binary32::one_value() > 0
        }),
{
    let f = Binary32::format();
    f.lemma_constants();
    let hi = Binary32::of_parts(Parts { negative: false, magnitude: 0x3f7f_ffff });
    let m: u32 = 0x3f7f_ffff;
    assert(m / 0x80_0000 == 126 && m % 0x80_0000 == 0x7f_ffff) by (bit_vector)
        requires
            m == 0x3f7f_ffff,
    ;
    assert(f.significand(0x3f7f_ffff) == 0xff_ffff);
    assert(f.shift(0x3f7f_ffff) == 125);
    lemma_pow2_adds(24, 125);
    lemma2_to64();
    lemma_pow2_pos(149);
    let (p, q) = (pow2(125), pow2(149));
    assert(0x100_0000 * (0xff_ffff * p) == 0xff_ffff * q) by (nonlinear_arith)
        requires
            q == 0x100_0000 * p,
    ;
}

/// The sum is off by at most half of the last place.
pub proof fn lemma_single_plus_near(a: Binary32, b: Binary32)
    requires
        a.finite(),
        b.finite(),
        a.plus(b).finite(),
    ensures
        0x100_0000 * abs_nat(a.plus(b).value() - (a.value() + b.value())) <= abs_nat(
            a.value() + b.value(),
        ),
{
    Binary32::format().lemma_constants();
    lemma_sum_near(Binary32::format(), a.parts(), b.parts());
}

/// The product is off by at most half of the last place, or by half of the smallest number.
pub proof fn lemma_single_times_near(a: Binary32, b: Binary32)
    requires
        a.finite(),
        b.finite(),
        a.times(b).finite(),
    ensures
        ({
            let one = Binary32::one_value();
            let exact = a.value() * b.value();
            let off = abs_nat(a.times(b).value() * one - exact);
            2 * off <= one || 0x100_0000 * off <= abs_nat(exact)
        }),
{
    Binary32::format().lemma_constants();
    lemma_product_near(Binary32::format(), a.parts(), b.parts());
}

/// The quotient is off by at most half of the last place, or by half of the smallest number.
pub proof fn lemma_single_over_near(a: Binary32, b: Binary32)
    requires
        a.finite(),
        b.finite(),
        b.value() > 0,
        a.over(b).finite(),
    ensures
        ({
            let exact = a.value() * Binary32::one_value();
            let off = abs_nat(a.over(b).value() * b.value() - exact);
            2 * off <= b.value() || 0x100_0000 * off <= abs_nat(exact)
        }),
{
    Binary32::format().lemma_constants();
    lemma_quotient_near(Binary32::format(), a.parts(), b.parts());
}

/// Numbers of double precision are in order as their values are.
pub proof fn lemma_double_ordered(a: Binary64, b: Binary64)
    requires
        a.finite(),
        b.finite(),
    ensures
        a.lt(b) <==> a.value() < b.value(),
        a.le(b) <==> a.value() <= b.value(),
{
    let f = Binary64::format();
    f.lemma_constants();
    lemma_units_zero(f);
    let (x, y) = (a.parts().magnitude as nat, b.parts().magnitude as nat);
    lemma_units_ordered(f, x, y);
    lemma_units_ordered(f, y, x);
    lemma_units_ordered(f, 0, x);
    lemma_units_ordered(f, 0, y);
}

/// The sum lies between any two numbers that the exact sum lies between.
pub proof fn lemma_double_plus_between(a: Binary64, b: Binary64, lo: Binary64, hi: Binary64)
    requires
        a.finite(),
        b.finite(),
        lo.finite(),
        hi.finite(),
        lo.value() <= a.value() + b.value() <= hi.value(),
    ensures
        a.plus(b).finite(),
        lo.value() <= a.plus(b).value() <= hi.value(),
{
    Binary64::format().lemma_constants();
    lemma_sum_between(Binary64::format(), a.parts(), b.parts(), lo.parts(), hi.parts());
}

/// The product lies between any two numbers that the exact product lies between.
pub proof fn lemma_double_times_between(a: Binary64, b: Binary64, lo: Binary64, hi: Binary64)
    requires
        a.finite(),
        b.finite(),
        lo.finite(),
        hi.finite(),
        lo.value() * Binary64::one_value() <= a.value() * b.value() <= hi.value()
            * Binary64::one_value(),
    ensures
        a.times(b).finite(),
        lo.value() <= a.times(b).value() <= hi.value(),
{
    Binary64::format().lemma_constants();
    lemma_product_between(Binary64::format(), a.parts(), b.parts(), lo.parts(), hi.parts());
}

/// The quotient lies between any two numbers that the exact quotient lies between.
pub proof fn lemma_double_over_between(a: Binary64, b: Binary64, lo: Binary64, hi: Binary64)
    requires
        a.finite(),
        b.finite(),
        lo.finite(),
        hi.finite(),
        b.value() > 0,
        lo.value() * b.value() <= a.value() * Binary64::one_value() <= hi.value() * b.value(),
    ensures
        a.over(b).finite(),
        lo.value() <= a.over(b).value() <= hi.value(),
{
    Binary64::format().lemma_constants();
    lemma_quotient_between(Binary64::format(), a.parts(), b.parts(), lo.parts(), hi.parts());
}

/// The sum is off by at most half of the last place.
pub proof fn lemma_double_plus_near(a: Binary64, b: Binary64)
    requires
        a.finite(),
        b.finite(),
        a.plus(b).finite(),
    ensures
        0x20_0000_0000_0000 * abs_nat(a.plus(b).value() - (a.value() + b.value())) <= abs_nat(
            a.value() + b.value(),
        ),
{
    Binary64::format().lemma_constants();
    lemma_sum_near(Binary64::format(), a.parts(), b.parts());
}

/// The product is off by at most half of the last place, or by half of the smallest number.
pub proof fn lemma_double_times_near(a: Binary64, b: Binary64)
    requires
        a.finite(),
        b.finite(),
        a.times(b).finite(),
    ensures
        ({
            let one = Binary64::one_value();
            let exact = a.value() * b.value();
            let off = abs_nat(a.times(b).value() * one - exact);
            2 * off <= one || 0x20_0000_0000_0000 * off <= abs_nat(exact)
        }),
{
    Binary64::format().lemma_constants();
    lemma_product_near(Binary64::format(), a.parts(), b.parts());
}

/// The quotient is off by at most half of the last place, or by half of the smallest number.
pub proof fn lemma_double_over_near(a: Binary64, b: Binary64)
    requires
        a.finite(),
        b.finite(),
        b.value() > 0,
        a.over(b).finite(),
    ensures
        ({
            let exact = a.value() * Binary64::one_value();
            let off = abs_nat(a.over(b).value() * b.value() - exact);
            2 * off <= b.value() || 0x20_0000_0000_0000 * off <= abs_nat(exact)
        }),
{
    Binary64::format().lemma_constants();
    lemma_quotient_near(Binary64::format(), a.parts(), b.parts());
}

/// The larger of two numbers is the one with the larger value, and the smaller one the other.
pub proof fn lemma_single_larger_smaller(a: Binary32, b: Binary32)
    requires
        a.finite(),
        b.finite(),
    ensures
        a.larger(b).value() == if a.value() < b.value() {
            b.value()
        } else {
            a.value()
        },
        a.smaller(b).value() == if b.value() < a.value() {
            b.value()
        } else {
            a.value()
        },
        a.larger(b) == a || a.larger(b) == b,
        a.smaller(b) == a || a.smaller(b) == b,
{
    Binary32::format().lemma_constants();
    lemma_single_ordered(a, b);
    lemma_single_ordered(b, a);
}

/// The difference is off by at most half of the last place.
pub proof fn lemma_single_minus_near(a: Binary32, b: Binary32)
    requires
        a.finite(),
        b.finite(),
        a.minus(b).finite(),
    ensures
        0x100_0000 * abs_nat(a.minus(b).value() - (a.value() - b.value())) <= abs_nat(
            a.value() - b.value(),
        ),
{
    let minus = b.negated();
    assert(minus.finite() && minus.value() == -b.value());
    lemma_single_plus_near(a, minus);
}

/// Rounding down, up and to the nearest whole number: the first is not above the number and less
/// than one below it, the second not below it and less than one above, and the third within one
/// half of it, away from zero where it lies half way.
pub proof fn lemma_single_whole_parts(x: Binary32)
    requires
        x.finite(),
    ensures
        ({
            let one = Binary32::one_value();
            let v = x.value();
            let r = x.round_int();
            &&& x.floor_int() * one <= v < (x.floor_int() + 1) * one
            &&& (x.ceil_int() - 1) * one < v <= x.ceil_int() * one
            &&& -(one as int) <= 2 * (r * one - v) <= one
            &&& v >= 0 ==> 2 * (v - r * one) < one
            &&& v < 0 ==> 2 * (r * one - v) < one
        }),
{
    let one = Binary32::one_value() as int;
    lemma_pow2_pos(149);
    let v = x.value();
    vstd::arithmetic::div_mod::lemma_fundamental_div_mod(v, one);
    vstd::arithmetic::div_mod::lemma_fundamental_div_mod(-v, one);
    let (f, c) = (v / one, -((-v) / one));
    assert(one * f == f * one && (f + 1) * one == f * one + one) by (nonlinear_arith);
    assert(one * (-c) == -(c * one) && (c - 1) * one == c * one - one) by (nonlinear_arith);
    if v < 0 {
        let n = 2 * -v + one;
        let q = n / (2 * one);
        vstd::arithmetic::div_mod::lemma_fundamental_div_mod(n, 2 * one);
        assert((2 * one) * q == 2 * (q * one) && (-q) * one == -(q * one)) by (nonlinear_arith);
    } else {
        let n = 2 * v + one;
        let q = n / (2 * one);
        vstd::arithmetic::div_mod::lemma_fundamental_div_mod(n, 2 * one);
        assert((2 * one) * q == 2 * (q * one)) by (nonlinear_arith);
    }
}

/// The larger of two numbers is the one with the larger value, and the smaller one the other.
pub proof fn lemma_double_larger_smaller(a: Binary64, b: Binary64)
    requires
        a.finite(),
        b.finite(),
    ensures
        a.larger(b).value() == if a.value() < b.value() {
            b.value()
        } else {
            a.value()
        },
        a.smaller(b).value() == if b.value() < a.value() {
            b.value()
        } else {
            a.value()
        },
        a.larger(b) == a || a.larger(b) == b,
        a.smaller(b) == a || a.smaller(b) == b,
{
    Binary64::format().lemma_constants();
    lemma_double_ordered(a, b);
    lemma_double_ordered(b, a);
}

/// The difference is off by at most half of the last place.
pub proof fn lemma_double_minus_near(a: Binary64, b: Binary64)
    requires
        a.finite(),
        b.finite(),
        a.minus(b).finite(),
    ensures
        0x20_0000_0000_0000 * abs_nat(a.minus(b).value() - (a.value() - b.value())) <= abs_nat(
            a.value() - b.value(),
        ),
{
    let minus = b.negated();
    assert(minus.finite() && minus.value() == -b.value());
    lemma_double_plus_near(a, minus);
}

/// Rounding down, up and to the nearest whole number: the first is not above the number and less
/// than one below it, the second not below it and less than one above, and the third within one
/// half of it, away from zero where it lies half way.
pub proof fn lemma_double_whole_parts(x: Binary64)
    requires
        x.finite(),
    ensures
        ({
            let one = Binary64::one_value();
            let v = x.value();
            let r = x.round_int();
            &&& x.floor_int() * one <= v < (x.floor_int() + 1) * one
            &&& (x.ceil_int() - 1) * one < v <= x.ceil_int() * one
            &&& -(one as int) <= 2 * (r * one - v) <= one
            &&& v >= 0 ==> 2 * (v - r * one) < one
            &&& v < 0 ==> 2 * (r * one - v) < one
        }),
{
    let one = Binary64::one_value() as int;
    lemma_pow2_pos(1074);
    let v = x.value();
    vstd::arithmetic::div_mod::lemma_fundamental_div_mod(v, one);
    vstd::arithmetic::div_mod::lemma_fundamental_div_mod(-v, one);
    let (f, c) = (v / one, -((-v) / one));
    assert(one * f == f * one && (f + 1) * one == f * one + one) by (nonlinear_arith);
    assert(one * (-c) == -(c * one) && (c - 1) * one == c * one - one) by (nonlinear_arith);
    if v < 0 {
        let n = 2 * -v + one;
        let q = n / (2 * one);
        vstd::arithmetic::div_mod::lemma_fundamental_div_mod(n, 2 * one);
        assert((2 * one) * q == 2 * (q * one) && (-q) * one == -(q * one)) by (nonlinear_arith);
    } else {
        let n = 2 * v + one;
        let q = n / (2 * one);
        vstd::arithmetic::div_mod::lemma_fundamental_div_mod(n, 2 * one);
        assert((2 * one) * q == 2 * (q * one)) by (nonlinear_arith);
    }
}

} // verus!
