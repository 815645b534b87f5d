//! Arithmetic of the binary interchange formats on sign and magnitude.
//!
//! A [`Format`] fixes how a magnitude's bits are read. The finite magnitudes count whole units of
//! the format's smallest positive number ([`Format::units`]), infinity is [`Format::infinity`] and
//! every larger magnitude is not a number. Each operation is the exact result rounded once, to the
//! nearest representable number and to the even significand on a tie.
use crate::rounding::{bit_length, encode, nearest_even, pos_part, power_of_two};
use crate::rounding::{
    lemma_div_bounds, lemma_encode_ratio, lemma_encode_shifted, lemma_encode_zero, lemma_excess_bits,
    lemma_nearest_even_shifted,
};
use vstd::arithmetic::power2::{
    lemma2_to64, lemma2_to64_rest, lemma_pow2_adds, lemma_pow2_pos, lemma_pow2_strictly_increases,
    lemma_pow2_unfold, pow2,
};
use vstd::prelude::*;

verus! {

/// A binary floating-point format: `p` significant bits, the smallest positive number `2^-bias`,
/// `top` the exponent code of infinity and `hidden` the weight of the implicit leading bit.
#[derive(Clone, Copy, Debug, PartialEq, Eq)]
pub struct Format {
    pub p: u32,
    pub bias: u32,
    pub top: u32,
    pub hidden: u64,
}

/// A number taken apart: its sign and the bits below the sign bit.
#[derive(Clone, Copy, Debug, PartialEq, Eq, Structural)]
pub struct Parts {
    pub negative: bool,
    pub magnitude: u64,
}

pub open spec fn abs_nat(v: int) -> nat {
    if v < 0 {
        (-v) as nat
    } else {
        v as nat
    }
}

impl Format {
    /// One of the two supported formats.
    pub open spec fn ok(self) -> bool {
        ||| self.p == 24 && self.bias == 149 && self.top == 255 && self.hidden == 0x80_0000
        ||| self.p == 53 && self.bias == 1074 && self.top == 2047 && self.hidden
            == 0x10_0000_0000_0000
    }

    /// The magnitude of infinity.
    pub open spec fn infinity(self) -> nat {
        (self.top * self.hidden) as nat
    }

    /// The significand of a finite magnitude, with the implicit bit where there is one.
    pub open spec fn significand(self, magnitude: nat) -> nat {
        if magnitude < self.hidden {
            magnitude
        } else {
            self.hidden as nat + magnitude % (self.hidden as nat)
        }
    }

    /// The exponent of a finite magnitude, relative to the unit.
    pub open spec fn shift(self, magnitude: nat) -> nat {
        if magnitude < self.hidden {
            0
        } else {
            (magnitude / (self.hidden as nat) - 1) as nat
        }
    }

    /// The value of a finite magnitude in units.
    pub open spec fn units(self, magnitude: nat) -> nat {
        self.significand(magnitude) * pow2(self.shift(magnitude))
    }

    /// The magnitude nearest to `n / d` units, infinity where that is too large.
    pub open spec fn round(self, n: nat, d: nat) -> nat {
        let bits = encode(n, d, self.p as nat);
        if bits < self.infinity() {
            bits
        } else {
            self.infinity()
        }
    }

    pub open spec fn is_nan(self, a: Parts) -> bool {
        a.magnitude > self.infinity()
    }

    pub open spec fn is_infinite(self, a: Parts) -> bool {
        a.magnitude == self.infinity()
    }

    pub open spec fn is_finite(self, a: Parts) -> bool {
        a.magnitude < self.infinity()
    }

    /// The value of a finite number in units.
    pub open spec fn value(self, a: Parts) -> int {
        if a.negative {
            -(self.units(a.magnitude as nat) as int)
        } else {
            self.units(a.magnitude as nat) as int
        }
    }

    /// The quiet not-a-number with a clear sign, which every invalid operation gives.
    pub open spec fn nan(self) -> Parts {
        Parts { negative: false, magnitude: (self.infinity() + self.hidden / 2) as u64 }
    }

    /// The sum.
    pub open spec fn sum(self, a: Parts, b: Parts) -> Parts {
        if self.is_nan(a) || self.is_nan(b) {
            self.nan()
        } else if self.is_infinite(a) {
            if self.is_infinite(b) && a.negative != b.negative {
                self.nan()
            } else {
                a
            }
        } else if self.is_infinite(b) {
            b
        } else {
            let v = self.value(a) + self.value(b);
            if v == 0 {
                Parts { negative: a.negative && b.negative, magnitude: 0 }
            } else {
                Parts { negative: v < 0, magnitude: self.round(abs_nat(v), 1) as u64 }
            }
        }
    }

    /// The product.
    pub open spec fn product(self, a: Parts, b: Parts) -> Parts {
        if self.is_nan(a) || self.is_nan(b) || (self.is_infinite(a) && b.magnitude == 0) || (
        self.is_infinite(b) && a.magnitude == 0) {
            self.nan()
        } else if self.is_infinite(a) || self.is_infinite(b) {
            Parts { negative: a.negative != b.negative, magnitude: self.infinity() as u64 }
        } else {
            Parts {
                negative: a.negative != b.negative,
                magnitude: self.round(
                    self.units(a.magnitude as nat) * self.units(b.magnitude as nat),
                    pow2(self.bias as nat),
                ) as u64,
            }
        }
    }

    /// The quotient.
    pub open spec fn quotient(self, a: Parts, b: Parts) -> Parts {
        if self.is_nan(a) || self.is_nan(b) || (self.is_infinite(a) && self.is_infinite(b)) || (
        a.magnitude == 0 && b.magnitude == 0) {
            self.nan()
        } else if self.is_infinite(a) || b.magnitude == 0 {
            Parts { negative: a.negative != b.negative, magnitude: self.infinity() as u64 }
        } else if self.is_infinite(b) {
            Parts { negative: a.negative != b.negative, magnitude: 0 }
        } else {
            Parts {
                negative: a.negative != b.negative,
                magnitude: self.round(
                    self.units(a.magnitude as nat) * pow2(self.bias as nat),
                    self.units(b.magnitude as nat),
                ) as u64,
            }
        }
    }

    pub(crate) proof fn lemma_constants(self)
        requires
            self.ok(),
        ensures
            self.hidden == pow2((self.p - 1) as nat),
            2 * self.hidden == pow2(self.p as nat),
            self.infinity() < 0x8000_0000_0000_0000,
            self.infinity() == self.top * self.hidden,
            (self.top + 1) * self.hidden <= 0x8000_0000_0000_0000,
            pow2(0) == 1,
    {
        lemma2_to64();
        lemma2_to64_rest();
        lemma_pow2_unfold(self.p as nat);
        let (t, h) = (self.top as int, self.hidden as int);
        assert(t == 255 && h == 0x80_0000 || t == 2047 && h == 0x10_0000_0000_0000);
        assert((t + 1) * h <= 0x8000_0000_0000_0000) by (nonlinear_arith)
            requires
                t == 255 && h == 0x80_0000 || t == 2047 && h == 0x10_0000_0000_0000,
        ;
    }

    proof fn lemma_parts(self, magnitude: u64)
        requires
            self.ok(),
            magnitude < self.infinity(),
        ensures
            self.significand(magnitude as nat) < 2 * self.hidden,
            self.shift(magnitude as nat) <= self.top - 2,
            self.shift(magnitude as nat) > 0 ==> self.significand(magnitude as nat) >= self.hidden,
            magnitude == self.shift(magnitude as nat) * self.hidden + self.significand(
                magnitude as nat,
            ),
            magnitude > 0 ==> self.significand(magnitude as nat) > 0,
            magnitude == 0 ==> self.units(magnitude as nat) == 0,
            magnitude >= self.hidden ==> magnitude / self.hidden >= 1,
    {
        self.lemma_constants();
        assert(0 * pow2(self.shift(magnitude as nat)) == 0);
        let h = self.hidden as int;
        vstd::arithmetic::div_mod::lemma_fundamental_div_mod(magnitude as int, h);
        if magnitude >= self.hidden {
            let e = magnitude as int / h;
            assert(1 <= e < self.top) by (nonlinear_arith)
                requires
                    magnitude == h * e + magnitude as int % h,
                    0 <= magnitude as int % h < h,
                    h <= magnitude < self.top * h,
            ;
            assert(magnitude == (e - 1) * h + (h + magnitude as int % h)) by (nonlinear_arith)
                requires
                    magnitude == h * e + magnitude as int % h,
            ;
            assert(self.shift(magnitude as nat) == e - 1);
            assert(self.significand(magnitude as nat) == h + magnitude as int % h);
        } else {
            assert(0 * self.hidden == 0);
        }
    }

    /// The single-precision format.
    pub fn single() -> (f: Format)
        ensures
            f.ok(),
            f.p == 24,
    {
        Format { p: 24, bias: 149, top: 255, hidden: 0x80_0000 }
    }

    /// The double-precision format.
    pub fn double() -> (f: Format)
        ensures
            f.ok(),
            f.p == 53,
    {
        Format { p: 53, bias: 1074, top: 2047, hidden: 0x10_0000_0000_0000 }
    }

    fn infinite_magnitude(&self) -> (m: u64)
        requires
            self.ok(),
        ensures
            m == self.infinity(),
            m < 0x8000_0000_0000_0000,
    {
        if self.p == 24 {
            0x7f80_0000
        } else {
            0x7ff0_0000_0000_0000
        }
    }

    fn not_a_number(&self) -> (r: Parts)
        requires
            self.ok(),
        ensures
            r == self.nan(),
            r.magnitude == self.infinity() + self.hidden / 2,
    {
        let m: u64 = self.infinite_magnitude();
        Parts { negative: false, magnitude: m + self.hidden / 2 }
    }

    /// Takes a finite magnitude apart.
    pub(crate) fn decode(&self, magnitude: u64) -> (r: (u64, u32))
        requires
            self.ok(),
            magnitude < self.infinity(),
        ensures
            r.0 == self.significand(magnitude as nat),
            r.1 == self.shift(magnitude as nat),
            r.0 < 2 * self.hidden,
            r.1 <= self.top - 2,
            r.1 > 0 ==> r.0 >= self.hidden,
            magnitude == r.1 * self.hidden + r.0,
            magnitude > 0 ==> r.0 > 0,
            self.units(magnitude as nat) == r.0 * pow2(r.1 as nat),
    {
        proof {
            self.lemma_parts(magnitude);
        }
        if magnitude < self.hidden {
            (magnitude, 0)
        } else {
            (self.hidden + magnitude % self.hidden, (magnitude / self.hidden - 1) as u32)
        }
    }

    /// The magnitude nearest to `n / d * 2^s` units.
    #[verifier::spinoff_prover]
    fn round_ratio(&self, n: u128, d: u64, s: i32) -> (r: u64)
        requires
            self.ok(),
            d > 0,
            n < pow2(120),
            d == 1 || n >= d * pow2(self.p as nat),
            -8000 <= s <= 8000,
        ensures
            r == self.round(n as nat * pow2(pos_part(s as int)), d as nat * pow2(pos_part(-s as int))),
            r <= self.infinity(),
    {
        proof {
            self.lemma_constants();
            lemma_pow2_strictly_increases(120, 127);
            lemma_pow2_pos(pos_part(s as int));
            lemma_pow2_pos(pos_part(-s as int));
        }
        let q: u128 = n / (d as u128);
        let low_rest: u128 = n % (d as u128);
        let ghost n2 = n as nat * pow2(pos_part(s as int));
        let ghost d2 = d as nat * pow2(pos_part(-s as int));
        if n == 0 {
            proof {
                let k = pow2(pos_part(-s as int));
                assert(d2 > 0) by (nonlinear_arith)
                    requires
                        d2 == d * k,
                        d > 0,
                        k > 0,
                ;
                assert(n2 == 0) by (nonlinear_arith)
                    requires
                        n == 0,
                        n2 == n as nat * pow2(pos_part(s as int)),
                ;
                lemma_encode_zero(d2, self.p as nat);
            }
            return 0;
        }
        proof {
            if d != 1 {
                assert(n < (n + 1) * d && pow2(self.p as nat) * d <= n) by (nonlinear_arith)
                    requires
                        d >= 1,
                        n >= d * pow2(self.p as nat),
                ;
                lemma_div_bounds(n as nat, d as nat, pow2(self.p as nat), n as nat + 1);
            }
            assert(q <= n) by (nonlinear_arith)
                requires
                    q == n / (d as u128),
                    d > 0,
            ;
        }
        let l: u32 = bit_length(q);
        proof {
            if l == 0 {
                assert(q < pow2(0));
                assert(q == 0);
                if d == 1 {
                    assert(q == n);
                }
                assert(false);
            }
            if d != 1 && l <= self.p {
                if l < self.p {
                    lemma_pow2_strictly_increases(l as nat, self.p as nat);
                }
                assert(false);
            }
        }
        let by_length: i32 = (l as i32) - (self.p as i32);
        let t: i32 = if -s > by_length {
            -s
        } else {
            by_length
        };
        proof {
            lemma_encode_shifted(
                n as nat,
                d as nat,
                s as int,
                self.p as nat,
                l as nat,
                t as int,
            );
        }
        let sh: i32 = t + s;
        let ghost m_spec: nat = if t <= 0 {
            n as nat * pow2((-t) as nat)
        } else {
            nearest_even(n as nat, d as nat * pow2(t as nat))
        };
        assert(encode(n2, d2, self.p as nat) == sh * self.hidden + m_spec);
        let infinite: u64 = self.infinite_magnitude();
        if sh as u32 >= self.top {
            assert(sh * self.hidden >= self.top * self.hidden) by (nonlinear_arith)
                requires
                    sh >= self.top,
                    self.hidden >= 0,
            ;
            return infinite;
        }
        let m: u64 = if t <= 0 {
            proof {
                if -t >= 53 {
                    lemma_pow2_strictly_increases(self.p as nat, 127);
                    if -t > self.p {
                        lemma_pow2_strictly_increases(self.p as nat, (-t) as nat);
                    }
                    let k = pow2((-t) as nat);
                    assert(n * k >= k) by (nonlinear_arith)
                        requires
                            n >= 1,
                            k >= 0,
                    ;
                }
            }
            let k: u128 = power_of_two((-t) as u32);
            let scaled: u128 = n * k;
            scaled as u64
        } else if t > 122 {
            proof {
                lemma_pow2_strictly_increases(120, (t - 1) as nat);
                lemma_nearest_even_shifted(
                    n as nat,
                    d as nat,
                    t as nat,
                    pow2((t - 1) as nat),
                );
                let h = pow2((t - 1) as nat);
                assert(q < 2 * h);
                assert((q as nat) / (2 * h) == 0) by {
                    vstd::arithmetic::div_mod::lemma_basic_div(q as int, (2 * h) as int);
                }
                assert((q as nat) % (2 * h) == q) by {
                    vstd::arithmetic::div_mod::lemma_small_mod(q as nat, 2 * h);
                }
            }
            0
        } else {
            let h: u128 = power_of_two((t - 1) as u32);
            proof {
                lemma_nearest_even_shifted(n as nat, d as nat, t as nat, h as nat);
                // the shifted quotient has at most p bits
                lemma_pow2_adds(t as nat, self.p as nat);
                if l < t + self.p {
                    lemma_pow2_strictly_increases(l as nat, (t + self.p) as nat);
                }
                let w = 2 * h as nat;
                assert(q < pow2(self.p as nat) * w) by (nonlinear_arith)
                    requires
                        q < pow2(l as nat),
                        pow2(l as nat) <= pow2((t + self.p) as nat),
                        pow2((t + self.p) as nat) == w * pow2(self.p as nat),
                ;
                lemma_div_bounds(q as nat, w, 0, pow2(self.p as nat));
                lemma_pow2_strictly_increases((t - 1) as nat, 127);
                lemma_pow2_unfold(127);
                lemma_pow2_strictly_increases((t - 1) as nat, 126);
                vstd::arithmetic::power2::lemma2_to64();
                lemma2_to64_rest();
                lemma_pow2_adds(63, 64);
            }
            let w: u128 = 2 * h;
            let high: u128 = q / w;
            let low: u128 = q % w;
            if low < h || (low == h && low_rest == 0 && high % 2 == 0) {
                high as u64
            } else {
                (high + 1) as u64
            }
        };
        assert(m == m_spec);
        assert(0 <= sh * self.hidden && sh * self.hidden + m <= (self.top + 1) * self.hidden)
            by (nonlinear_arith)
            requires
                0 <= sh < self.top,
                m <= 2 * self.hidden,
                self.hidden >= 0,
        ;
        let bits: u64 = (sh as u64) * self.hidden + m;
        if bits < infinite {
            bits
        } else {
            infinite
        }
    }
}

/// Adding less than an eighth of the last place leaves a normal number as it is.
proof fn lemma_round_near(f: Format, m: nat, s: nat, n: nat)
    requires
        f.ok(),
        f.hidden <= m < 2 * f.hidden,
        s >= 3,
        8 * abs_nat(n - m * pow2(s)) < pow2(s),
    ensures
        encode(n, 1, f.p as nat) == s * f.hidden + m,
{
    f.lemma_constants();
    let p = f.p as nat;
    let h = f.hidden as nat;
    let e = pow2(s);
    lemma_pow2_pos(s);
    lemma_pow2_unfold(s);
    lemma_pow2_adds((p - 1) as nat, s);
    lemma_pow2_adds(p, s);
    let x = m * e;
    assert(n / 1 == n);
    assert(h * e <= x && x + e <= (2 * h) * e) by (nonlinear_arith)
        requires
            h <= m,
            m + 1 <= 2 * h,
            x == m * e,
            e > 0,
    ;
    if n >= x {
        lemma_excess_bits(n, p, s);
        let r = (n - x) as nat;
        vstd::arithmetic::div_mod::lemma_fundamental_div_mod_converse(
            n as int,
            e as int,
            m as int,
            r as int,
        );
        assert(1 * e == e);
    } else if m > h {
        let y = (x - n) as nat;
        assert(x >= (h + 1) * e) by (nonlinear_arith)
            requires
                m >= h + 1,
                x == m * e,
                e > 0,
        ;
        assert((h + 1) * e == h * e + e) by (nonlinear_arith);
        lemma_excess_bits(n, p, s);
        assert(n == (m - 1) * e + (e - y)) by (nonlinear_arith)
            requires
                x == m * e,
                y == x - n,
        ;
        vstd::arithmetic::div_mod::lemma_fundamental_div_mod_converse(
            n as int,
            e as int,
            m - 1,
            e - y,
        );
        assert(1 * e == e);
    } else {
        let y = (x - n) as nat;
        let s1 = (s - 1) as nat;
        let e1 = pow2(s1);
        lemma_pow2_adds((p - 1) as nat, s1);
        lemma_pow2_adds(p, s1);
        lemma_pow2_unfold((p - 1 + s) as nat);
        if s1 > 0 {
            lemma_pow2_unfold((p + s1) as nat);
            lemma_pow2_unfold((p - 1 + s1) as nat);
        }
        assert(x == (2 * h) * e1) by (nonlinear_arith)
            requires
                x == m * e,
                m == h,
                e == 2 * e1,
        ;
        assert(h * e1 >= e1) by (nonlinear_arith)
            requires
                h >= 1,
                e1 >= 0,
        ;
        assert(x == h * e1 + h * e1) by (nonlinear_arith)
            requires
                x == (2 * h) * e1,
        ;
        lemma_excess_bits(n, p, s1);
        assert(n == (2 * h - 1) * e1 + (e1 - y)) by (nonlinear_arith)
            requires
                x == (2 * h) * e1,
                y == x - n,
        ;
        vstd::arithmetic::div_mod::lemma_fundamental_div_mod_converse(
            n as int,
            e1 as int,
            2 * h - 1,
            e1 - y,
        );
        assert(1 * e1 == e1);
        assert(s1 * h + 2 * h == s * h + h) by (nonlinear_arith)
            requires
                s1 == s - 1,
        ;
    }
}

impl Format {
    fn sum_aligned(&self, a: Parts, b: Parts) -> (r: Parts)
        requires
            self.ok(),
            self.is_finite(a),
            self.is_finite(b),
            self.shift(a.magnitude as nat) >= self.shift(b.magnitude as nat),
        ensures
            r == self.sum(a, b),
    {
        let (ma, sa) = self.decode(a.magnitude);
        let (mb, sb) = self.decode(b.magnitude);
        let gap: u32 = sa - sb;
        let ghost ua = self.units(a.magnitude as nat);
        let ghost ub = self.units(b.magnitude as nat);
        let ghost eb = pow2(sb as nat);
        let ghost v = self.value(a) + self.value(b);
        proof {
            self.lemma_constants();
            lemma_pow2_pos(sb as nat);
            lemma_pow2_adds(gap as nat, sb as nat);
        }
        if gap > 60 {
            proof {
                let s = sa as nat;
                lemma_pow2_strictly_increases((self.p + 3) as nat, 60);
                lemma_pow2_adds((self.p + 3) as nat, sb as nat);
                lemma_pow2_strictly_increases((self.p + 3 + sb) as nat, s);
                lemma_pow2_adds(3, self.p as nat);
                lemma2_to64();
                assert(8 * ub < pow2(s)) by (nonlinear_arith)
                    requires
                        ub == mb * eb,
                        mb < pow2(self.p as nat),
                        pow2((self.p + 3) as nat) == 8 * pow2(self.p as nat),
                        pow2((self.p + 3 + sb) as nat) == pow2((self.p + 3) as nat) * eb,
                        pow2((self.p + 3 + sb) as nat) < pow2(s),
                        eb > 0,
                ;
                assert(ua >= pow2(s)) by (nonlinear_arith)
                    requires
                        ua == ma * pow2(s),
                        ma >= 1,
                ;
                lemma_round_near(*self, ma as nat, s, abs_nat(v));
            }
            return a;
        }
        proof {
            lemma2_to64();
            lemma2_to64_rest();
            if gap < 60 {
                lemma_pow2_strictly_increases(gap as nat, 60);
            }
            lemma_pow2_adds(60, 54);
            lemma_pow2_strictly_increases(115, 120);
            lemma_pow2_unfold(115);
            lemma_pow2_strictly_increases(120, 127);
            lemma_pow2_adds(63, 64);
            lemma_pow2_adds(60, 60);
            let g = pow2(gap as nat);
            assert(ma * g <= pow2(54) * pow2(60)) by (nonlinear_arith)
                requires
                    ma <= pow2(54),
                    g <= pow2(60),
                    ma >= 0,
                    g >= 0,
            ;
        }
        let g: u128 = power_of_two(gap);
        let na: u128 = (ma as u128) * g;
        let nb: u128 = mb as u128;
        proof {
            assert(ua == na * eb) by (nonlinear_arith)
                requires
                    ua == ma * pow2(sa as nat),
                    pow2(sa as nat) == g * eb,
                    na == ma * g,
            ;
        }
        let (negative, n): (bool, u128) = if a.negative == b.negative {
            (a.negative, na + nb)
        } else if na >= nb {
            (a.negative, na - nb)
        } else {
            (b.negative, nb - na)
        };
        proof {
            assert((na + nb) * eb == na * eb + nb * eb) by (nonlinear_arith);
            assert((na - nb) * eb == na * eb - nb * eb) by (nonlinear_arith);
            assert((nb - na) * eb == nb * eb - na * eb) by (nonlinear_arith);
            assert(abs_nat(v) == n * eb) by {
                assert(na >= nb ==> (na - nb) * eb >= 0) by (nonlinear_arith)
                    requires
                        eb > 0,
                ;
                assert(nb >= na ==> (nb - na) * eb >= 0) by (nonlinear_arith)
                    requires
                        eb > 0,
                ;
            }
            assert(n > 0 ==> n * eb > 0) by (nonlinear_arith)
                requires
                    eb > 0,
            ;
            assert(n == 0 ==> n * eb == 0);
            assert(na == 0 && nb == 0 ==> ua == 0 && ub == 0);
        }
        if n == 0 {
            return Parts { negative: a.negative && b.negative, magnitude: 0 };
        }
        let magnitude: u64 = self.round_ratio(n, 1, sb as i32);
        proof {
            assert(1 * pow2(0) == 1);
        }
        Parts { negative, magnitude }
    }

    /// Adds two numbers.
    pub fn add_parts(&self, a: Parts, b: Parts) -> (r: Parts)
        requires
            self.ok(),
        ensures
            r == self.sum(a, b),
    {
        let infinite: u64 = self.infinite_magnitude();
        if a.magnitude > infinite || b.magnitude > infinite {
            return self.not_a_number();
        }
        if a.magnitude == infinite {
            if b.magnitude == infinite && a.negative != b.negative {
                return self.not_a_number();
            }
            return a;
        }
        if b.magnitude == infinite {
            return b;
        }
        let (_, sa) = self.decode(a.magnitude);
        let (_, sb) = self.decode(b.magnitude);
        if sa >= sb {
            self.sum_aligned(a, b)
        } else {
            self.sum_aligned(b, a)
        }
    }

    /// Multiplies two numbers.
    pub fn mul_parts(&self, a: Parts, b: Parts) -> (r: Parts)
        requires
            self.ok(),
        ensures
            r == self.product(a, b),
    {
        let infinite: u64 = self.infinite_magnitude();
        if a.magnitude > infinite || b.magnitude > infinite || (a.magnitude == infinite
            && b.magnitude == 0) || (b.magnitude == infinite && a.magnitude == 0) {
            return self.not_a_number();
        }
        let negative: bool = a.negative != b.negative;
        if a.magnitude == infinite || b.magnitude == infinite {
            return Parts { negative, magnitude: infinite };
        }
        let (ma, sa) = self.decode(a.magnitude);
        let (mb, sb) = self.decode(b.magnitude);
        proof {
            self.lemma_constants();
            lemma2_to64();
            lemma2_to64_rest();
            lemma_pow2_adds(60, 60);
            assert(ma * mb < pow2(60) * pow2(60)) by (nonlinear_arith)
                requires
                    0 <= ma < pow2(60),
                    0 <= mb < pow2(60),
            ;
            lemma_pow2_adds(60, 64);
            assert(pow2(60) * pow2(64) <= u128::MAX) by {
                assert(0x1000_0000_0000_0000nat * 0x1_0000_0000_0000_0000nat
                    == 0x1000_0000_0000_0000_0000_0000_0000_0000nat) by (nonlinear_arith);
            }
            lemma_pow2_strictly_increases(120, 124);
        }
        let n: u128 = (ma as u128) * (mb as u128);
        let s: i32 = (sa as i32) + (sb as i32) - (self.bias as i32);
        let magnitude: u64 = self.round_ratio(n, 1, s);
        proof {
            let up = pos_part(s as int);
            let down = pos_part(-s as int);
            let bias = self.bias as nat;
            let units = self.units(a.magnitude as nat) * self.units(b.magnitude as nat);
            lemma_pow2_adds(sa as nat, sb as nat);
            lemma_pow2_adds((sa + sb) as nat, down);
            lemma_pow2_adds(up, bias);
            lemma_pow2_pos(bias);
            lemma_pow2_pos(down);
            let (ea, eb, ed, eu, ebias) = (
                pow2(sa as nat),
                pow2(sb as nat),
                pow2(down),
                pow2(up),
                pow2(bias),
            );
            assert(units == n * (ea * eb)) by (nonlinear_arith)
                requires
                    units == (ma * ea) * (mb * eb),
                    n == ma * mb,
            ;
            assert(units * (1 * ed) == (n * eu) * ebias) by (nonlinear_arith)
                requires
                    units == n * (ea * eb),
                    (ea * eb) * ed == eu * ebias,
            ;
            lemma_encode_ratio(units, ebias, n as nat * eu, 1 * ed, self.p as nat);
        }
        Parts { negative, magnitude }
    }

    /// Divides one number by another.
    pub fn div_parts(&self, a: Parts, b: Parts) -> (r: Parts)
        requires
            self.ok(),
        ensures
            r == self.quotient(a, b),
    {
        let infinite: u64 = self.infinite_magnitude();
        if a.magnitude > infinite || b.magnitude > infinite || (a.magnitude == infinite
            && b.magnitude == infinite) || (a.magnitude == 0 && b.magnitude == 0) {
            return self.not_a_number();
        }
        let negative: bool = a.negative != b.negative;
        if a.magnitude == infinite || b.magnitude == 0 {
            return Parts { negative, magnitude: infinite };
        }
        if b.magnitude == infinite {
            return Parts { negative, magnitude: 0 };
        }
        let (ma, sa) = self.decode(a.magnitude);
        let (mb, sb) = self.decode(b.magnitude);
        proof {
            self.lemma_constants();
            lemma_pow2_pos(self.bias as nat);
            lemma_pow2_pos(sa as nat);
            lemma_pow2_pos(sb as nat);
            assert(self.units(b.magnitude as nat) > 0) by (nonlinear_arith)
                requires
                    self.units(b.magnitude as nat) == mb * pow2(sb as nat),
                    mb > 0,
                    pow2(sb as nat) > 0,
            ;
        }
        if a.magnitude == 0 {
            proof {
                self.lemma_parts(0);
                let ub = self.units(b.magnitude as nat);
                assert(0 * pow2(self.bias as nat) == 0);
                assert(0nat / ub == 0) by {
                    vstd::arithmetic::div_mod::lemma_div_basics(ub as int);
                }
                assert(0nat % ub == 0);
                assert(ub * pow2(0) == ub);
                assert(encode(0, ub, self.p as nat) == 0);
                assert(0 < self.infinity());
            }
            return Parts { negative, magnitude: 0 };
        }
        // scale the dividend to a full significand
        let mut full: u64 = ma;
        let mut j: u32 = 0;
        while full < self.hidden
            invariant
                self.ok(),
                0 < full < 2 * self.hidden,
                self.hidden <= 0x10_0000_0000_0000,
                full == ma * pow2(j as nat),
                ma > 0,
                j <= 53,
                full >= pow2(j as nat),
                self.hidden == pow2((self.p - 1) as nat),
            decreases 60 - j,
        {
            proof {
                lemma_pow2_unfold((j + 1) as nat);
                if j >= self.p - 1 {
                    if j > self.p - 1 {
                        lemma_pow2_strictly_increases((self.p - 1) as nat, j as nat);
                    }
                    assert(false);
                }
                assert(ma * (2 * pow2(j as nat)) == 2 * (ma * pow2(j as nat)))
                    by (nonlinear_arith);
            }
            full = full * 2;
            j = j + 1;
        }
        let extra: u32 = self.p + 2;
        proof {
            lemma2_to64();
            lemma2_to64_rest();
            lemma_pow2_adds(60, 60);
            lemma_pow2_adds(60, 64);
            assert(0x1000_0000_0000_0000nat * 0x1_0000_0000_0000_0000nat
                == 0x1000_0000_0000_0000_0000_0000_0000_0000nat) by (nonlinear_arith);
            lemma_pow2_strictly_increases(120, 124);
            lemma_pow2_strictly_increases(extra as nat, 60);
            lemma_pow2_unfold(extra as nat);
            lemma_pow2_unfold((extra - 1) as nat);
            let e = pow2(extra as nat);
            assert(full * e < pow2(60) * pow2(60)) by (nonlinear_arith)
                requires
                    0 <= full < pow2(60),
                    0 <= e < pow2(60),
            ;
            assert(full * e >= mb * pow2(self.p as nat)) by (nonlinear_arith)
                requires
                    full >= self.hidden,
                    mb <= 2 * self.hidden,
                    e == 4 * pow2(self.p as nat),
                    pow2(self.p as nat) >= 0,
            ;
        }
        let scale: u128 = power_of_two(extra);
        let n: u128 = (full as u128) * scale;
        let s: i32 = (sa as i32) + (self.bias as i32) - (sb as i32) - (j as i32) - (extra as i32);
        let magnitude: u64 = self.round_ratio(n, mb, s);
        proof {
            let up = pos_part(s as int);
            let down = pos_part(-s as int);
            let bias = self.bias as nat;
            let ua = self.units(a.magnitude as nat);
            let ub = self.units(b.magnitude as nat);
            let (ea, eb, ed, eu, ebias, ej, ee) = (
                pow2(sa as nat),
                pow2(sb as nat),
                pow2(down),
                pow2(up),
                pow2(bias),
                pow2(j as nat),
                pow2(extra as nat),
            );
            lemma_pow2_pos(down);
            lemma_pow2_pos(up);
            // ua * bias * (mb * down) == n * up * ub
            lemma_pow2_adds(sa as nat, bias);
            lemma_pow2_adds((sa + bias) as nat, down);
            lemma_pow2_adds(j as nat, extra as nat);
            lemma_pow2_adds((j + extra) as nat, up);
            lemma_pow2_adds((j + extra + up) as nat, sb as nat);
            assert((ea * ebias) * ed == ((ej * ee) * eu) * eb);
            let left = (ea * ebias) * ed;
            let right = ((ej * ee) * eu) * eb;
            assert(((ma * ea) * ebias) * (mb * ed) == (ma * mb) * left) by (nonlinear_arith)
                requires
                    left == (ea * ebias) * ed,
            ;
            assert((((ma * ej) * ee) * eu) * (mb * eb) == (ma * mb) * right) by (nonlinear_arith)
                requires
                    right == ((ej * ee) * eu) * eb,
            ;
            assert(mb * ed > 0) by (nonlinear_arith)
                requires
                    mb > 0,
                    ed > 0,
            ;
            lemma_encode_ratio(
                ua * ebias,
                ub,
                n as nat * eu,
                mb as nat * ed,
                self.p as nat,
            );
        }
        Parts { negative, magnitude }
    }

    /// The number nearest to a natural number.
    pub open spec fn of_nat(self, n: nat) -> Parts {
        Parts { negative: false, magnitude: self.round(n * pow2(self.bias as nat), 1) as u64 }
    }

    /// Converts a natural number.
    pub fn from_unsigned(&self, n: u64) -> (r: Parts)
        requires
            self.ok(),
        ensures
            r == self.of_nat(n as nat),
    {
        proof {
            self.lemma_constants();
            lemma2_to64();
            lemma_pow2_strictly_increases(64, 120);
            assert(1 * pow2(0) == 1);
        }
        let magnitude: u64 = self.round_ratio(n as u128, 1, self.bias as i32);
        Parts { negative: false, magnitude }
    }

    /// The largest natural number that is not above a finite magnitude.
    pub open spec fn whole(self, magnitude: nat) -> nat {
        self.units(magnitude) / pow2(self.bias as nat)
    }

    /// What a finite magnitude has beyond [`Format::whole`], in units.
    pub open spec fn rest(self, magnitude: nat) -> nat {
        self.units(magnitude) % pow2(self.bias as nat)
    }

    /// Splits a finite magnitude into its whole part, cut at the largest 64-bit number, whether
    /// anything is left over, and whether that is at least one half.
    pub fn split(&self, magnitude: u64) -> (r: (u64, bool, bool))
        requires
            self.ok(),
            magnitude < self.infinity(),
        ensures
            r.0 == if self.whole(magnitude as nat) < u64::MAX {
                self.whole(magnitude as nat) as u64
            } else {
                u64::MAX
            },
            r.1 == (self.rest(magnitude as nat) > 0),
            r.2 == (2 * self.rest(magnitude as nat) >= pow2(self.bias as nat)),
    {
        let (m, s) = self.decode(magnitude);
        let ghost bias = self.bias as nat;
        let ghost units = self.units(magnitude as nat);
        proof {
            self.lemma_constants();
            lemma_pow2_pos(bias);
            lemma2_to64();
            lemma2_to64_rest();
        }
        if s >= self.bias {
            let k: u32 = s - self.bias;
            proof {
                lemma_pow2_adds(k as nat, bias);
                let whole = m as nat * pow2(k as nat);
                lemma_pow2_pos(k as nat);
                assert(units == whole * pow2(bias)) by (nonlinear_arith)
                    requires
                        units == m * pow2(s as nat),
                        pow2(s as nat) == pow2(k as nat) * pow2(bias),
                        whole == m * pow2(k as nat),
                ;
                vstd::arithmetic::div_mod::lemma_fundamental_div_mod_converse(
                    units as int,
                    pow2(bias) as int,
                    whole as int,
                    0,
                );
                if k >= 64 {
                    if k > 64 {
                        lemma_pow2_strictly_increases(64, k as nat);
                    }
                    assert(m > 0);
                    assert(whole >= pow2(k as nat)) by (nonlinear_arith)
                        requires
                            whole == m * pow2(k as nat),
                            m >= 1,
                    ;
                } else {
                    lemma_pow2_strictly_increases(k as nat, 64);
                    assert(m * pow2(k as nat) <= 0x1000_0000_0000_0000 * 0x1_0000_0000_0000_0000)
                        by (nonlinear_arith)
                        requires
                            0 <= m <= 0x1000_0000_0000_0000,
                            0 <= pow2(k as nat) <= 0x1_0000_0000_0000_0000,
                    ;
                }
            }
            if k >= 64 {
                (u64::MAX, false, false)
            } else {
                let e: u128 = power_of_two(k);
                let w: u128 = (m as u128) * e;
                if w < u64::MAX as u128 {
                    (w as u64, false, false)
                } else {
                    (u64::MAX, false, false)
                }
            }
        } else {
            let k: u32 = self.bias - s;
            let ghost half = pow2((k - 1) as nat);
            let ghost es = pow2(s as nat);
            proof {
                lemma_pow2_adds(k as nat, s as nat);
                lemma_pow2_unfold(k as nat);
                lemma_pow2_pos(s as nat);
                lemma_pow2_pos((k - 1) as nat);
                crate::rounding::lemma_div_scaled(m as nat, pow2(k as nat), es);
                let low = (m as nat) % pow2(k as nat);
                assert(low * es > 0 <==> low > 0) by (nonlinear_arith)
                    requires
                        es > 0,
                        low >= 0,
                ;
                assert(2 * (low * es) >= (2 * half) * es <==> low >= half) by (nonlinear_arith)
                    requires
                        es > 0,
                ;
                if k > 64 {
                    lemma_pow2_strictly_increases(64, k as nat);
                    lemma_pow2_unfold(k as nat);
                    if k > 65 {
                        lemma_pow2_strictly_increases(64, (k - 1) as nat);
                    }
                    vstd::arithmetic::div_mod::lemma_basic_div(m as int, pow2(k as nat) as int);
                    vstd::arithmetic::div_mod::lemma_small_mod(m as nat, pow2(k as nat));
                }
            }
            if k > 64 {
                (0, m > 0, false)
            } else {
                let h: u128 = power_of_two(k - 1);
                proof {
                    if k - 1 < 64 {
                        lemma_pow2_strictly_increases((k - 1) as nat, 64);
                    }
                }
                let e: u128 = 2 * h;
                let w: u128 = (m as u128) / e;
                let low: u128 = (m as u128) % e;
                proof {
                    assert(w <= m) by (nonlinear_arith)
                        requires
                            w == (m as u128) / e,
                            e > 0,
                    ;
                }
                (w as u64, low > 0, low >= h)
            }
        }
    }
}

} // verus!
