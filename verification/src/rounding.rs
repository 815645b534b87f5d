//! Rounding of exact quotients to binary floating-point magnitudes.
//!
//! A magnitude is counted in units of the smallest positive number of its format, so every finite
//! number is a whole number of units and every exact intermediate result is a quotient of two
//! natural numbers. [`encode`] is the bit pattern of the format's number that is nearest to such a
//! quotient, ties going to the even significand.
use vstd::arithmetic::power2::{
    lemma_pow2_adds, lemma_pow2_pos, lemma_pow2_strictly_increases, lemma_pow2_unfold, pow2,
};
use vstd::prelude::*;

verus! {

/// The natural number nearest to `n / d`; the even one of the two where `n / d` is half way.
pub open spec fn nearest_even(n: nat, d: nat) -> nat {
    let q = n / d;
    let r = n % d;
    if 2 * r < d || (2 * r == d && q % 2 == 0) {
        q
    } else {
        q + 1
    }
}

/// How many low bits `u` has beyond `p` significant bits.
pub open spec fn excess_bits(u: nat, p: nat) -> nat
    decreases u,
{
    if u < pow2(p) || u == 0 {
        0
    } else {
        1 + excess_bits(u / 2, p)
    }
}

/// The bit pattern of the number nearest to `n / d` units in a format with `p` significant bits,
/// before the largest exponent is taken into account.
pub open spec fn encode(n: nat, d: nat, p: nat) -> nat {
    let s = excess_bits(n / d, p);
    s * pow2((p - 1) as nat) + nearest_even(n, d * pow2(s))
}

/// The larger of an integer and zero.
pub open spec fn pos_part(v: int) -> nat {
    if v >= 0 {
        v as nat
    } else {
        0
    }
}

/// Zero is encoded as zero.
pub(crate) proof fn lemma_encode_zero(d: nat, p: nat)
    requires
        d > 0,
    ensures
        encode(0, d, p) == 0,
{
    vstd::arithmetic::div_mod::lemma_div_basics(d as int);
    assert(0nat / d == 0);
    let s = excess_bits(0nat / d, p);
    assert(s == 0);
    vstd::arithmetic::power2::lemma2_to64();
    assert(s * pow2((p - 1) as nat) == 0) by (nonlinear_arith)
        requires
            s == 0,
    ;
    assert(d * pow2(0) == d) by (nonlinear_arith)
        requires
            pow2(0) == 1,
    ;
    assert(nearest_even(0, d) == 0) by {
        vstd::arithmetic::div_mod::lemma_fundamental_div_mod(0, d as int);
        assert(0nat % d == 0);
    }
}

pub(crate) proof fn lemma_div_scaled(n: nat, d: nat, k: nat)
    requires
        d > 0,
        k > 0,
    ensures
        (n * k) / (d * k) == n / d,
        (n * k) % (d * k) == (n % d) * k,
        d * k > 0,
{
    let q = (n / d) as int;
    let r = (n % d) as int;
    let (ni, di, ki) = (n as int, d as int, k as int);
    assert(ni == q * di + r && 0 <= r < di) by {
        vstd::arithmetic::div_mod::lemma_fundamental_div_mod(ni, di);
        assert(di * q == q * di) by (nonlinear_arith);
    }
    assert(ni * ki == q * (di * ki) + r * ki) by (nonlinear_arith)
        requires
            ni == q * di + r,
    ;
    assert(0 <= r * ki < di * ki) by (nonlinear_arith)
        requires
            0 <= r < di,
            ki > 0,
    ;
    vstd::arithmetic::div_mod::lemma_fundamental_div_mod_converse(
        ni * ki,
        di * ki,
        q,
        r * ki,
    );
}

pub(crate) proof fn lemma_nearest_even_scaled(n: nat, d: nat, k: nat)
    requires
        d > 0,
        k > 0,
    ensures
        nearest_even(n * k, d * k) == nearest_even(n, d),
{
    lemma_div_scaled(n, d, k);
    let r = n % d;
    assert((2 * (r * k) < d * k) == (2 * r < d)) by (nonlinear_arith)
        requires
            k > 0,
    ;
    assert((2 * (r * k) == d * k) == (2 * r == d)) by (nonlinear_arith)
        requires
            k > 0,
    ;
}

/// Equal quotients round alike.
pub(crate) proof fn lemma_encode_ratio(n1: nat, d1: nat, n2: nat, d2: nat, p: nat)
    requires
        d1 > 0,
        d2 > 0,
        n1 * d2 == n2 * d1,
    ensures
        n1 / d1 == n2 / d2,
        encode(n1, d1, p) == encode(n2, d2, p),
{
    lemma_div_scaled(n1, d1, d2);
    lemma_div_scaled(n2, d2, d1);
    assert(d1 * d2 == d2 * d1) by (nonlinear_arith);
    let s = excess_bits(n1 / d1, p);
    lemma_pow2_pos(s);
    let e = pow2(s);
    assert(d1 * e > 0 && d2 * e > 0) by (nonlinear_arith)
        requires
            d1 > 0,
            d2 > 0,
            e > 0,
    ;
    lemma_nearest_even_scaled(n1, d1 * e, d2);
    lemma_nearest_even_scaled(n2, d2 * e, d1);
    assert((d1 * e) * d2 == (d2 * e) * d1) by (nonlinear_arith);
}

/// `excess_bits` from the position of the leading bit.
pub(crate) proof fn lemma_excess_bits(u: nat, p: nat, s: nat)
    requires
        u < pow2(p + s),
        s == 0 || (p + s >= 1 && pow2((p + s - 1) as nat) <= u),
    ensures
        excess_bits(u, p) == s,
    decreases s,
{
    if s == 0 {
    } else {
        lemma_pow2_unfold(p + s);
        lemma_pow2_pos((p + s - 1) as nat);
        if s > 1 {
            lemma_pow2_unfold((p + s - 1) as nat);
            lemma_excess_bits(u / 2, p, (s - 1) as nat);
        } else {
            assert(u / 2 < pow2(p));
            lemma_excess_bits(u / 2, p, 0);
        }
        if p < p + s - 1 {
            lemma_pow2_strictly_increases(p, (p + s - 1) as nat);
        }
    }
}

/// `n / d` lies in `[lo, hi)` when `n` lies between the multiples of `d`.
pub(crate) proof fn lemma_div_bounds(n: nat, d: nat, lo: nat, hi: nat)
    requires
        d > 0,
        lo * d <= n < hi * d,
    ensures
        lo <= n / d < hi,
{
    let q = n / d;
    vstd::arithmetic::div_mod::lemma_fundamental_div_mod(n as int, d as int);
    assert(lo <= q && q < hi) by (nonlinear_arith)
        requires
            lo * d <= n < hi * d,
            n == d * q + n % d,
            0 <= n % d < d,
            d > 0,
    ;
}

/// Rounding `N / D` after a shift by `t` bits, from the quotient and remainder of `N` by `D`.
pub(crate) proof fn lemma_nearest_even_shifted(n: nat, d: nat, t: nat, h: nat)
    requires
        d > 0,
        t > 0,
        h == pow2((t - 1) as nat),
    ensures
        ({
            let q = (n / d) / (2 * h);
            let low = (n / d) % (2 * h);
            &&& 2 * h == pow2(t)
            &&& h > 0
            &&& nearest_even(n, d * pow2(t)) == if low < h || (low == h && n % d == 0 && q % 2 == 0) {
                q
            } else {
                q + 1
            }
        }),
{
    lemma_pow2_unfold(t);
    lemma_pow2_pos((t - 1) as nat);
    let w: nat = 2 * h;
    let big = n / d;
    let r = n % d;
    let q = big / w;
    let low = big % w;
    vstd::arithmetic::div_mod::lemma_fundamental_div_mod(n as int, d as int);
    vstd::arithmetic::div_mod::lemma_fundamental_div_mod(big as int, w as int);
    let rest: nat = low * d + r;
    assert(n == q * (d * w) + rest) by (nonlinear_arith)
        requires
            n == d * big + r,
            big == w * q + low,
            rest == low * d + r,
    ;
    assert(rest < d * w) by (nonlinear_arith)
        requires
            rest == low * d + r,
            low < w,
            r < d,
    ;
    vstd::arithmetic::div_mod::lemma_fundamental_div_mod_converse(
        n as int,
        (d * w) as int,
        q as int,
        rest as int,
    );
    if low < h {
        assert(2 * rest < d * w) by (nonlinear_arith)
            requires
                rest == low * d + r,
                low < h,
                r < d,
                w == 2 * h,
        ;
    } else if low == h {
        assert(2 * rest == d * w + 2 * r) by (nonlinear_arith)
            requires
                rest == low * d + r,
                low == h,
                w == 2 * h,
        ;
    } else {
        assert(2 * rest > d * w) by (nonlinear_arith)
            requires
                rest == low * d + r,
                low >= h + 1,
                w == 2 * h,
                d > 0,
        ;
    }
}

/// The bit pattern of `n / d * 2^s` units from the bit length `l` of `n / d`.
pub(crate) proof fn lemma_encode_shifted(n: nat, d: nat, s: int, p: nat, l: nat, t: int)
    requires
        d > 0,
        p > 0,
        n > 0,
        n / d < pow2(l),
        l > 0 && pow2((l - 1) as nat) <= n / d,
        t == if -s > l - p {
            -s
        } else {
            l - p
        },
        t <= 0 ==> d == 1,
    ensures
        t + s >= 0,
        t <= 0 ==> n * pow2((-t) as nat) < pow2(p),
        encode(n * pow2(pos_part(s)), d * pow2(pos_part(-s)), p) == (t + s) * pow2((p - 1) as nat)
            + if t <= 0 {
            n * pow2((-t) as nat)
        } else {
            nearest_even(n, d * pow2(t as nat))
        },
{
    let a = pos_part(s);
    let b = pos_part(-s);
    let sh = (t + s) as nat;
    let n2 = n * pow2(a);
    let d2 = d * pow2(b);
    lemma_pow2_pos(a);
    lemma_pow2_pos(b);
    lemma_pow2_pos(sh);
    assert(d2 > 0) by (nonlinear_arith)
        requires
            d > 0,
            pow2(b) > 0,
            d2 == d * pow2(b),
    ;
    vstd::arithmetic::div_mod::lemma_fundamental_div_mod(n as int, d as int);
    let q = n / d;
    // n < d * 2^l
    let hi = pow2(l);
    assert(n < d * hi) by (nonlinear_arith)
        requires
            n == d * q + n % d,
            n % d < d,
            q < hi,
            d > 0,
    ;
    assert(n2 < d * (hi * pow2(a))) by (nonlinear_arith)
        requires
            n < d * hi,
            n2 == n * pow2(a),
            pow2(a) > 0,
    ;
    lemma_pow2_adds(l, a);
    lemma_pow2_adds(b, p + sh);
    // l + a <= b + p + sh
    if l + a < b + p + sh {
        lemma_pow2_strictly_increases(l + a, b + p + sh);
    }
    assert(n2 < pow2(p + sh) * d2) by (nonlinear_arith)
        requires
            n2 < d * pow2(l + a),
            pow2(l + a) <= pow2(b) * pow2(p + sh),
            d2 == d * pow2(b),
            d > 0,
    ;
    lemma_div_bounds(n2, d2, 0, pow2(p + sh));
    if sh > 0 {
        let lo = pow2((l - 1) as nat);
        assert(d * lo <= n) by (nonlinear_arith)
            requires
                n == d * q + n % d,
                0 <= n % d,
                lo <= q,
                d > 0,
        ;
        assert(d * (lo * pow2(a)) <= n2) by (nonlinear_arith)
            requires
                d * lo <= n,
                n2 == n * pow2(a),
                pow2(a) > 0,
        ;
        lemma_pow2_adds((l - 1) as nat, a);
        lemma_pow2_adds(b, (p + sh - 1) as nat);
        assert(l - 1 + a == b + (p + sh - 1));
        assert(pow2((p + sh - 1) as nat) * d2 <= n2) by (nonlinear_arith)
            requires
                d * pow2((l - 1 + a) as nat) <= n2,
                pow2((l - 1 + a) as nat) == pow2(b) * pow2((p + sh - 1) as nat),
                d2 == d * pow2(b),
        ;
        lemma_div_bounds(n2, d2, pow2((p + sh - 1) as nat), pow2(p + sh));
    }
    lemma_excess_bits(n2 / d2, p, sh);
    // the significand
    lemma_pow2_adds(b, sh);
    assert(d2 * pow2(sh) == d * pow2(b + sh)) by (nonlinear_arith)
        requires
            d2 == d * pow2(b),
            pow2(b + sh) == pow2(b) * pow2(sh),
    ;
    if t > 0 {
        lemma_pow2_adds(t as nat, a);
        lemma_pow2_pos(t as nat);
        let dt = d * pow2(t as nat);
        assert(b + sh == t + a);
        assert(dt > 0) by (nonlinear_arith)
            requires
                dt == d * pow2(t as nat),
                d > 0,
                pow2(t as nat) > 0,
        ;
        assert(d * pow2(b + sh) == dt * pow2(a)) by (nonlinear_arith)
            requires
                dt == d * pow2(t as nat),
                pow2(b + sh) == pow2(t as nat) * pow2(a),
        ;
        lemma_nearest_even_scaled(n, dt, pow2(a));
    } else {
        let k = (-t) as nat;
        lemma_pow2_adds(k, b + sh);
        lemma_pow2_pos(b + sh);
        lemma_pow2_pos(k);
        assert(a == k + (b + sh));
        assert(n2 == (n * pow2(k)) * pow2(b + sh)) by (nonlinear_arith)
            requires
                n2 == n * pow2(a),
                pow2(a) == pow2(k) * pow2(b + sh),
        ;
        lemma_nearest_even_scaled(n * pow2(k), 1, pow2(b + sh));
        assert(1 * pow2(b + sh) == pow2(b + sh));
        assert(nearest_even(n * pow2(k), 1) == n * pow2(k));
        lemma_pow2_adds(l, k);
        if l + k < p {
            lemma_pow2_strictly_increases(l + k, p);
        }
        assert(n * pow2(k) < pow2(p)) by (nonlinear_arith)
            requires
                n < d * hi,
                d == 1,
                pow2(l + k) == hi * pow2(k),
                pow2(l + k) <= pow2(p),
                pow2(k) > 0,
        ;
    }
}

pub(crate) proof fn lemma_pow2_127()
    ensures
        pow2(127) == 0x8000_0000_0000_0000_0000_0000_0000_0000,
{
    vstd::arithmetic::power2::lemma2_to64();
    vstd::arithmetic::power2::lemma2_to64_rest();
    lemma_pow2_adds(63, 64);
    assert(0x8000_0000_0000_0000nat * 0x1_0000_0000_0000_0000nat
        == 0x8000_0000_0000_0000_0000_0000_0000_0000nat) by (nonlinear_arith);
}

/// The power of two that fits in 128 bits.
pub(crate) fn power_of_two(k: u32) -> (r: u128)
    requires
        k < 128,
    ensures
        r == pow2(k as nat),
{
    let mut r: u128 = 1;
    let mut i: u32 = 0;
    proof {
        vstd::arithmetic::power2::lemma2_to64();
        lemma_pow2_127();
        if k < 127 {
            lemma_pow2_strictly_increases(k as nat, 127);
        }
    }
    while i < k
        invariant
            i <= k < 128,
            r == pow2(i as nat),
            pow2(k as nat) <= 0x8000_0000_0000_0000_0000_0000_0000_0000,
        decreases k - i,
    {
        proof {
            lemma_pow2_unfold((i + 1) as nat);
            if i + 1 < k {
                lemma_pow2_strictly_increases((i + 1) as nat, k as nat);
            }
        }
        r = r * 2;
        i = i + 1;
    }
    r
}

/// The number of significant bits.
pub(crate) fn bit_length(v: u128) -> (l: u32)
    requires
        v < pow2(127),
    ensures
        l <= 127,
        v < pow2(l as nat),
        l > 0 ==> pow2((l - 1) as nat) <= v,
{
    let mut l: u32 = 0;
    let mut p: u128 = 1;
    proof {
        lemma_pow2_127();
        vstd::arithmetic::power2::lemma2_to64();
    }
    while p <= v
        invariant
            v < pow2(127),
            pow2(127) == 0x8000_0000_0000_0000_0000_0000_0000_0000,
            l <= 127,
            p == pow2(l as nat),
            l > 0 ==> pow2((l - 1) as nat) <= v,
        decreases 127 - l,
    {
        proof {
            lemma_pow2_unfold((l + 1) as nat);
            if l == 127 {
                assert(false);
            }
        }
        p = p * 2;
        l = l + 1;
    }
    l
}

} // verus!
