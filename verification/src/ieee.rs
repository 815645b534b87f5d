//! Single- and double-precision numbers with exact contracts.
//!
//! [`Binary32`] and [`Binary64`] hold the bit patterns of the machine's floating-point numbers and
//! compute with integers what the machine computes: each operation is the exact result rounded to
//! the nearest representable number (see [`crate::format`]). Callers exchange values by their bits.
use crate::format::{Format, Parts};
use crate::rounding::{
    encode, lemma_encode_ratio, lemma_encode_zero, lemma_excess_bits, nearest_even,
};
use vstd::arithmetic::power2::{lemma2_to64, lemma_pow2_adds, lemma_pow2_pos, pow2};
use vstd::prelude::*;

verus! {

/// Rounding a magnitude of `u` units, `one` units being one, by its whole part and what is left.
proof fn lemma_whole(u: nat, one: nat)
    requires
        one > 0,
    ensures
        -(-(u as int) / (one as int)) == u / one + if u % one > 0 {
            1int
        } else {
            0
        },
        (2 * u + one) / (2 * one) == u / one + if 2 * (u % one) >= one {
            1nat
        } else {
            0
        },
{
    let (ui, d) = (u as int, one as int);
    let q = ui / d;
    let r = ui % d;
    vstd::arithmetic::div_mod::lemma_fundamental_div_mod(ui, d);
    assert(d * q == q * d) by (nonlinear_arith);
    if r == 0 {
        assert(-ui == (-q) * d + 0) by (nonlinear_arith)
            requires
                ui == q * d,
        ;
        vstd::arithmetic::div_mod::lemma_fundamental_div_mod_converse(-ui, d, -q, 0);
    } else {
        assert(-ui == (-q - 1) * d + (d - r)) by (nonlinear_arith)
            requires
                ui == q * d + r,
        ;
        vstd::arithmetic::div_mod::lemma_fundamental_div_mod_converse(-ui, d, -q - 1, d - r);
    }
    if 2 * r >= d {
        assert(2 * ui + d == (q + 1) * (2 * d) + (2 * r - d)) by (nonlinear_arith)
            requires
                ui == q * d + r,
        ;
        vstd::arithmetic::div_mod::lemma_fundamental_div_mod_converse(
            2 * ui + d,
            2 * d,
            q + 1,
            2 * r - d,
        );
    } else {
        assert(2 * ui + d == q * (2 * d) + (2 * r + d)) by (nonlinear_arith)
            requires
                ui == q * d + r,
        ;
        vstd::arithmetic::div_mod::lemma_fundamental_div_mod_converse(
            2 * ui + d,
            2 * d,
            q,
            2 * r + d,
        );
    }
}

/// A single-precision number, held as its bit pattern.
#[derive(Clone, Copy, Debug, PartialEq, Eq, Structural)]
pub struct Binary32 {
    pub bits: u32,
}

impl Binary32 {
    /// The format that the bits are read in.
    pub open spec fn format() -> Format {
        Format { p: 24, bias: 149, top: 255, hidden: 0x80_0000 }
    }

    /// Sign and magnitude.
    pub open spec fn parts(self) -> Parts {
        Parts { negative: self.bits >= 0x8000_0000, magnitude: (self.bits % 0x8000_0000) as u64 }
    }

    /// The number with the given sign and magnitude.
    pub open spec fn of_parts(parts: Parts) -> Binary32 {
        Binary32 {
            bits: if parts.negative {
                (0x8000_0000 + parts.magnitude) as u32
            } else {
                parts.magnitude as u32
            },
        }
    }

    /// Neither infinite nor undefined.
    pub open spec fn finite(self) -> bool {
        Self::format().is_finite(self.parts())
    }

    /// Not a number.
    pub open spec fn nan(self) -> bool {
        Self::format().is_nan(self.parts())
    }

    /// The exact value of a finite number, in units of the smallest positive one.
    pub open spec fn value(self) -> int {
        Self::format().value(self.parts())
    }

    /// The units in one.
    pub open spec fn one_value() -> nat {
        pow2(149)
    }

    /// The position among the ordered numbers; both zeros share one position.
    pub open spec fn rank(self) -> int {
        if self.bits >= 0x8000_0000 {
            -(self.bits - 0x8000_0000)
        } else {
            self.bits as int
        }
    }

    /// The position in the total order over all bit patterns, in which the negative zero comes
    /// before the positive one.
    pub open spec fn total_rank(self) -> int {
        if self.bits >= 0x8000_0000 {
            0x8000_0000 - self.bits - 1
        } else {
            self.bits as int
        }
    }

    pub open spec fn spec_lt(self, other: Binary32) -> bool {
        !self.nan() && !other.nan() && self.rank() < other.rank()
    }

    pub open spec fn spec_le(self, other: Binary32) -> bool {
        !self.nan() && !other.nan() && self.rank() <= other.rank()
    }

    pub open spec fn spec_negated(self) -> Binary32 {
        Binary32 {
            bits: if self.bits >= 0x8000_0000 {
                (self.bits - 0x8000_0000) as u32
            } else {
                (self.bits + 0x8000_0000) as u32
            },
        }
    }

    pub open spec fn spec_plus(self, other: Binary32) -> Binary32 {
        Self::of_parts(Self::format().sum(self.parts(), other.parts()))
    }

    pub open spec fn spec_minus(self, other: Binary32) -> Binary32 {
        self.spec_plus(other.spec_negated())
    }

    pub open spec fn spec_times(self, other: Binary32) -> Binary32 {
        Self::of_parts(Self::format().product(self.parts(), other.parts()))
    }

    pub open spec fn spec_over(self, other: Binary32) -> Binary32 {
        Self::of_parts(Self::format().quotient(self.parts(), other.parts()))
    }

    /// The number nearest to a natural number.
    pub open spec fn of_nat(n: nat) -> Binary32 {
        Self::of_parts(Self::format().of_nat(n))
    }

    pub open spec fn spec_larger(self, other: Binary32) -> Binary32 {
        if self.nan() || self.spec_lt(other) {
            other
        } else {
            self
        }
    }

    pub open spec fn spec_smaller(self, other: Binary32) -> Binary32 {
        if self.nan() || other.spec_lt(self) {
            other
        } else {
            self
        }
    }

    pub open spec fn spec_clamped(self, lo: Binary32, hi: Binary32) -> Binary32 {
        if self.spec_lt(lo) {
            lo
        } else if hi.spec_lt(self) {
            hi
        } else {
            self
        }
    }

    /// The largest whole number that is not above a finite number.
    pub open spec fn floor_int(self) -> int {
        self.value() / (Self::one_value() as int)
    }

    /// The smallest whole number that is not below a finite number.
    pub open spec fn ceil_int(self) -> int {
        -((-self.value()) / (Self::one_value() as int))
    }

    /// The whole number nearest to a finite number, away from zero on a tie.
    pub open spec fn round_int(self) -> int {
        let one = Self::one_value() as int;
        if self.value() < 0 {
            -((2 * -self.value() + one) / (2 * one))
        } else {
            (2 * self.value() + one) / (2 * one)
        }
    }

    pub fn from_bits(bits: u32) -> (r: Binary32)
        ensures
            r.bits == bits,
    {
        Binary32 { bits }
    }

    pub fn to_bits(self) -> (bits: u32)
        ensures
            bits == self.bits,
    {
        self.bits
    }

    fn take_apart(self) -> (r: Parts)
        ensures
            r == self.parts(),
    {
        Parts { negative: self.bits >= 0x8000_0000, magnitude: (self.bits % 0x8000_0000) as u64 }
    }

    fn put_together(parts: Parts) -> (r: Binary32)
        requires
            parts.magnitude < 0x8000_0000,
        ensures
            r == Self::of_parts(parts),
    {
        Binary32 {
            bits: if parts.negative {
                0x8000_0000 + parts.magnitude as u32
            } else {
                parts.magnitude as u32
            },
        }
    }

    pub fn is_nan(self) -> (r: bool)
        ensures
            r == self.nan(),
    {
        self.bits % 0x8000_0000 > 0x7f80_0000
    }

    pub fn is_finite(self) -> (r: bool)
        ensures
            r == self.finite(),
    {
        self.bits % 0x8000_0000 < 0x7f80_0000
    }

    #[verifier::when_used_as_spec(spec_lt)]
    pub fn lt(self, other: Binary32) -> (r: bool)
        ensures
            r == self.spec_lt(other),
    {
        if self.is_nan() || other.is_nan() {
            false
        } else if self.bits >= 0x8000_0000 {
            if other.bits >= 0x8000_0000 {
                other.bits < self.bits
            } else {
                self.bits > 0x8000_0000 || other.bits > 0
            }
        } else {
            other.bits < 0x8000_0000 && self.bits < other.bits
        }
    }

    #[verifier::when_used_as_spec(spec_le)]
    pub fn le(self, other: Binary32) -> (r: bool)
        ensures
            r == self.spec_le(other),
    {
        !self.is_nan() && !other.is_nan() && !other.lt(self)
    }

    /// The number with the other sign.
    #[verifier::when_used_as_spec(spec_negated)]
    pub fn negated(self) -> (r: Binary32)
        ensures
            r == self.spec_negated(),
    {
        Binary32 {
            bits: if self.bits >= 0x8000_0000 {
                self.bits - 0x8000_0000
            } else {
                self.bits + 0x8000_0000
            },
        }
    }

    /// The rounded sum.
    #[verifier::when_used_as_spec(spec_plus)]
    pub fn plus(self, other: Binary32) -> (r: Binary32)
        ensures
            r == self.spec_plus(other),
    {
        let parts: Parts = Format::single().add_parts(self.take_apart(), other.take_apart());
        Self::put_together(parts)
    }

    /// The rounded difference.
    #[verifier::when_used_as_spec(spec_minus)]
    pub fn minus(self, other: Binary32) -> (r: Binary32)
        ensures
            r == self.spec_minus(other),
    {
        self.plus(other.negated())
    }

    /// The rounded product.
    #[verifier::when_used_as_spec(spec_times)]
    pub fn times(self, other: Binary32) -> (r: Binary32)
        ensures
            r == self.spec_times(other),
    {
        let parts: Parts = Format::single().mul_parts(self.take_apart(), other.take_apart());
        Self::put_together(parts)
    }

    /// The rounded quotient.
    #[verifier::when_used_as_spec(spec_over)]
    pub fn over(self, other: Binary32) -> (r: Binary32)
        ensures
            r == self.spec_over(other),
    {
        let parts: Parts = Format::single().div_parts(self.take_apart(), other.take_apart());
        Self::put_together(parts)
    }

    /// The nearest number to a count.
    pub fn from_usize(n: usize) -> (r: Binary32)
        ensures
            r == Self::of_nat(n as nat),
    {
        let parts: Parts = Format::single().from_unsigned(n as u64);
        Self::put_together(parts)
    }

    /// The number nearest to a whole number.
    pub open spec fn of_int(n: int) -> Binary32 {
        if n < 0 {
            Self::of_nat((-n) as nat).spec_negated()
        } else {
            Self::of_nat(n as nat)
        }
    }

    /// The nearest number to a whole number.
    pub fn from_i64(n: i64) -> (r: Binary32)
        ensures
            r == Self::of_int(n as int),
    {
        let size: u64 = if n == i64::MIN {
            0x8000_0000_0000_0000
        } else if n < 0 {
            (-n) as u64
        } else {
            n as u64
        };
        let parts: Parts = Format::single().from_unsigned(size);
        let magnitude: Binary32 = Self::put_together(parts);
        if n < 0 {
            magnitude.negated()
        } else {
            magnitude
        }
    }

    /// The larger of two numbers; the other one where one is not a number.
    #[verifier::when_used_as_spec(spec_larger)]
    pub fn larger(self, other: Binary32) -> (r: Binary32)
        ensures
            r == self.spec_larger(other),
    {
        if self.is_nan() || self.lt(other) {
            other
        } else {
            self
        }
    }

    /// The smaller of two numbers; the other one where one is not a number.
    #[verifier::when_used_as_spec(spec_smaller)]
    pub fn smaller(self, other: Binary32) -> (r: Binary32)
        ensures
            r == self.spec_smaller(other),
    {
        if self.is_nan() || other.lt(self) {
            other
        } else {
            self
        }
    }

    /// The number, moved to the nearer end where it is outside `lo..=hi`.
    #[verifier::when_used_as_spec(spec_clamped)]
    pub fn clamped(self, lo: Binary32, hi: Binary32) -> (r: Binary32)
        ensures
            r == self.spec_clamped(lo, hi),
    {
        if self.lt(lo) {
            lo
        } else if hi.lt(self) {
            hi
        } else {
            self
        }
    }

    /// Whether this number comes strictly before the other in the total order.
    pub fn total_before(self, other: Binary32) -> (r: bool)
        ensures
            r == (self.total_rank() < other.total_rank()),
    {
        if self.bits >= 0x8000_0000 {
            other.bits < 0x8000_0000 || other.bits < self.bits
        } else {
            other.bits < 0x8000_0000 && self.bits < other.bits
        }
    }

    /// The number rounded down, cut to the range of `i64`; zero where it is not a number.
    pub fn floor_i64(self) -> (r: i64)
        ensures
            r == self.to_i64(self.floor_int()),
    {
        self.whole_i64(true, false, false)
    }

    /// The number rounded up, cut to the range of `i64`; zero where it is not a number.
    pub fn ceil_i64(self) -> (r: i64)
        ensures
            r == self.to_i64(self.ceil_int()),
    {
        self.whole_i64(false, true, false)
    }

    /// The number rounded to the nearest whole number, cut to the range of `i64`; zero where it is
    /// not a number.
    pub fn round_i64(self) -> (r: i64)
        ensures
            r == self.to_i64(self.round_int()),
    {
        self.whole_i64(false, false, true)
    }

    /// A whole number cut to the range of `i64`, given what `self` is rounded to.
    pub open spec fn to_i64(self, whole: int) -> i64 {
        if self.nan() {
            0
        } else if !self.finite() {
            if self.bits >= 0x8000_0000 {
                i64::MIN
            } else {
                i64::MAX
            }
        } else if whole < i64::MIN {
            i64::MIN
        } else if whole > i64::MAX {
            i64::MAX
        } else {
            whole as i64
        }
    }

    /// A whole number cut to the range of `usize`, given what `self` is rounded to.
    pub open spec fn to_usize(self, whole: int) -> usize {
        if self.nan() {
            0
        } else if !self.finite() {
            if self.bits >= 0x8000_0000 {
                0
            } else {
                usize::MAX
            }
        } else if whole < 0 {
            0
        } else if whole > usize::MAX {
            usize::MAX
        } else {
            whole as usize
        }
    }

    fn whole_i64(self, down: bool, up: bool, near: bool) -> (r: i64)
        requires
            down || up || near,
        ensures
            down ==> r == self.to_i64(self.floor_int()),
            !down && up ==> r == self.to_i64(self.ceil_int()),
            !down && !up ==> r == self.to_i64(self.round_int()),
    {
        if self.is_nan() {
            return 0;
        }
        let negative: bool = self.bits >= 0x8000_0000;
        if !self.is_finite() {
            return if negative {
                i64::MIN
            } else {
                i64::MAX
            };
        }
        let (whole, more, half) = Format::single().split((self.bits % 0x8000_0000) as u64);
        let away: bool = if down {
            negative && more
        } else if up {
            !negative && more
        } else {
            half
        };
        let ghost w = Self::format().whole(self.parts().magnitude as nat);
        proof {
            lemma_pow2_pos(149);
            lemma_whole(
                Self::format().units(self.parts().magnitude as nat),
                pow2(149),
            );
        }
        let size: u64 = if away && whole < u64::MAX {
            whole + 1
        } else {
            whole
        };
        if negative {
            if size >= 0x8000_0000_0000_0000 {
                i64::MIN
            } else {
                -(size as i64)
            }
        } else if size > 0x7fff_ffff_ffff_ffff {
            i64::MAX
        } else {
            size as i64
        }
    }

    fn whole_usize(self, down: bool, up: bool, near: bool) -> (r: usize)
        requires
            down || up || near,
        ensures
            down ==> r == self.to_usize(self.floor_int()),
            !down && up ==> r == self.to_usize(self.ceil_int()),
            !down && !up ==> r == self.to_usize(self.round_int()),
    {
        if self.is_nan() {
            return 0;
        }
        let negative: bool = self.bits >= 0x8000_0000;
        if !self.is_finite() {
            return if negative {
                0
            } else {
                usize::MAX
            };
        }
        let (whole, more, half) = Format::single().split((self.bits % 0x8000_0000) as u64);
        let away: bool = if down {
            negative && more
        } else if up {
            !negative && more
        } else {
            half
        };
        proof {
            lemma_pow2_pos(149);
            lemma_whole(
                Self::format().units(self.parts().magnitude as nat),
                pow2(149),
            );
        }
        if negative {
            return 0;
        }
        let size: u64 = if away && whole < u64::MAX {
            whole + 1
        } else {
            whole
        };
        if size >= usize::MAX as u64 {
            usize::MAX
        } else {
            size as usize
        }
    }

    /// The number rounded down, cut to the range of `usize`; zero where it is not a number.
    pub fn floor_usize(self) -> (r: usize)
        ensures
            r == self.to_usize(self.floor_int()),
    {
        self.whole_usize(true, false, false)
    }

    /// The number rounded up, cut to the range of `usize`; zero where it is not a number.
    pub fn ceil_usize(self) -> (r: usize)
        ensures
            r == self.to_usize(self.ceil_int()),
    {
        self.whole_usize(false, true, false)
    }

    /// The number rounded to the nearest whole number, cut to the range of `usize`; zero where it
    /// is not a number.
    pub fn round_usize(self) -> (r: usize)
        ensures
            r == self.to_usize(self.round_int()),
    {
        self.whole_usize(false, false, true)
    }
}

/// The number of binary digits of a positive number below `2^p`.
proof fn lemma_digits(n: nat, p: nat) -> (l: nat)
    requires
        0 < n < pow2(p),
    ensures
        0 < l <= p,
        pow2((l - 1) as nat) <= n < pow2(l),
    decreases p,
{
    if p == 0 {
        vstd::arithmetic::power2::lemma2_to64();
        0
    } else if n >= pow2((p - 1) as nat) {
        p
    } else {
        lemma_digits(n, (p - 1) as nat)
    }
}

/// Whole numbers of at most 24 binary digits are represented exactly, so that converting one to a
/// number and rounding that gives it back.
pub proof fn lemma_whole_numbers_exact(n: i64)
    requires
        -0x100_0000 < n < 0x100_0000,
    ensures
        Binary32::of_int(n as int).finite(),
        Binary32::of_int(n as int).value() == n * Binary32::one_value(),
        Binary32::of_int(n as int).to_i64(Binary32::of_int(n as int).round_int()) == n,
{
    let size: nat = if n < 0 {
        (-n) as nat
    } else {
        n as nat
    };
    lemma_small_magnitude(size);
    let magnitude = Binary32::of_nat(size);
    let x = Binary32::of_int(n as int);
    let one = pow2(149);
    lemma_pow2_pos(149);
    assert(x.parts().magnitude == magnitude.parts().magnitude);
    assert(n < 0 ==> x.parts().negative);
    assert(n * one == if n < 0 {
        -((size * one) as int)
    } else {
        (size * one) as int
    }) by (nonlinear_arith)
        requires
            n < 0 ==> size == -n,
            n >= 0 ==> size == n,
    ;
    assert((2 * (size * one) as int + one as int) / (2 * one as int) == size) by {
        let (si, oi) = (size as int, one as int);
        assert(2 * (si * oi) + oi == si * (2 * oi) + oi) by (nonlinear_arith);
        vstd::arithmetic::div_mod::lemma_fundamental_div_mod_converse(
            2 * (si * oi) + oi,
            2 * oi,
            si,
            oi,
        );
    }
    assert(size * one >= 0) by (nonlinear_arith)
        requires
            size >= 0,
            one >= 0,
    ;
    if n < 0 {
        assert(size * one > 0) by (nonlinear_arith)
            requires
                size > 0,
                one > 0,
        ;
    }
}

/// The magnitude of a whole number of at most 24 binary digits.
proof fn lemma_small_magnitude(n: nat)
    requires
        n < 0x100_0000,
    ensures
        ({
            let x = Binary32::of_nat(n);
            &&& !x.parts().negative
            &&& x.parts().magnitude < 0x7f80_0000
            &&& Binary32::format().units(x.parts().magnitude as nat) == n * pow2(149)
        }),
{
    let format = Binary32::format();
    assert(format.infinity() == 0x7f80_0000);
    let units = n * pow2(149);
    if n == 0 {
        assert(units == 0) by (nonlinear_arith)
            requires
                units == n * pow2(149),
                n == 0,
        ;
        lemma_encode_zero(1, 24);
        assert(format.units(0) == 0) by (nonlinear_arith)
            requires
                format.units(0) == 0 * pow2(0),
        ;
    } else {
        lemma2_to64();
        let l = lemma_digits(n, 24);
        let s = (l + 125) as nat;
        let up = (24 - l) as nat;
        let m = n * pow2(up);
        lemma_pow2_pos(149);
        lemma_pow2_pos(s);
        lemma_pow2_pos(up);
        lemma_pow2_adds((l - 1) as nat, 149);
        lemma_pow2_adds(l, 149);
        lemma_pow2_adds(up, s);
        lemma_pow2_adds((l - 1) as nat, up);
        lemma_pow2_adds(l, up);
        let (unit, step, scale) = (pow2(149), pow2(s), pow2(up));
        assert(pow2((l - 1) as nat) * unit <= units && units < pow2(l) * unit) by (nonlinear_arith)
            requires
                units == n * unit,
                pow2((l - 1) as nat) <= n < pow2(l),
                unit > 0,
        ;
        lemma_excess_bits(units, 24, s);
        assert(units == m * step) by (nonlinear_arith)
            requires
                units == n * unit,
                unit == scale * step,
                m == n * scale,
        ;
        assert(0x80_0000 <= m < 0x100_0000) by (nonlinear_arith)
            requires
                m == n * scale,
                pow2((l - 1) as nat) <= n < pow2(l),
                pow2((l - 1) as nat) * scale == 0x80_0000,
                pow2(l) * scale == 0x100_0000,
                scale > 0,
        ;
        assert(units / 1 == units);
        assert(nearest_even(units, 1 * step) == m) by {
            vstd::arithmetic::div_mod::lemma_fundamental_div_mod_converse(
                units as int,
                step as int,
                m as int,
                0,
            );
        }
        let code = s * 0x80_0000 + m;
        assert(encode(units, 1, 24) == code);
        assert(code == (s + 1) * 0x80_0000 + (m - 0x80_0000));
        vstd::arithmetic::div_mod::lemma_fundamental_div_mod_converse(
            code as int,
            0x80_0000,
            (s + 1) as int,
            m - 0x80_0000,
        );
        assert(code < 0x7f80_0000);
        assert(format.significand(code) == m);
        assert(format.shift(code) == s);
    }
}

/// A double-precision number, held as its bit pattern.
#[derive(Clone, Copy, Debug, PartialEq, Eq, Structural)]
pub struct Binary64 {
    pub bits: u64,
}

impl Binary64 {
    /// The format that the bits are read in.
    pub open spec fn format() -> Format {
        Format { p: 53, bias: 1074, top: 2047, hidden: 0x10_0000_0000_0000 }
    }

    /// Sign and magnitude.
    pub open spec fn parts(self) -> Parts {
        Parts { negative: self.bits >= 0x8000_0000_0000_0000, magnitude: (self.bits % 0x8000_0000_0000_0000) as u64 }
    }

    /// The number with the given sign and magnitude.
    pub open spec fn of_parts(parts: Parts) -> Binary64 {
        Binary64 {
            bits: if parts.negative {
                (0x8000_0000_0000_0000 + parts.magnitude) as u64
            } else {
                parts.magnitude as u64
            },
        }
    }

    /// Neither infinite nor undefined.
    pub open spec fn finite(self) -> bool {
        Self::format().is_finite(self.parts())
    }

    /// Not a number.
    pub open spec fn nan(self) -> bool {
        Self::format().is_nan(self.parts())
    }

    /// The exact value of a finite number, in units of the smallest positive one.
    pub open spec fn value(self) -> int {
        Self::format().value(self.parts())
    }

    /// The units in one.
    pub open spec fn one_value() -> nat {
        pow2(1074)
    }

    /// The position among the ordered numbers; both zeros share one position.
    pub open spec fn rank(self) -> int {
        if self.bits >= 0x8000_0000_0000_0000 {
            -(self.bits - 0x8000_0000_0000_0000)
        } else {
            self.bits as int
        }
    }

    /// The position in the total order over all bit patterns, in which the negative zero comes
    /// before the positive one.
    pub open spec fn total_rank(self) -> int {
        if self.bits >= 0x8000_0000_0000_0000 {
            0x8000_0000_0000_0000 - self.bits - 1
        } else {
            self.bits as int
        }
    }

    pub open spec fn spec_lt(self, other: Binary64) -> bool {
        !self.nan() && !other.nan() && self.rank() < other.rank()
    }

    pub open spec fn spec_le(self, other: Binary64) -> bool {
        !self.nan() && !other.nan() && self.rank() <= other.rank()
    }

    pub open spec fn spec_negated(self) -> Binary64 {
        Binary64 {
            bits: if self.bits >= 0x8000_0000_0000_0000 {
                (self.bits - 0x8000_0000_0000_0000) as u64
            } else {
                (self.bits + 0x8000_0000_0000_0000) as u64
            },
        }
    }

    pub open spec fn spec_plus(self, other: Binary64) -> Binary64 {
        Self::of_parts(Self::format().sum(self.parts(), other.parts()))
    }

    pub open spec fn spec_minus(self, other: Binary64) -> Binary64 {
        self.spec_plus(other.spec_negated())
    }

    pub open spec fn spec_times(self, other: Binary64) -> Binary64 {
        Self::of_parts(Self::format().product(self.parts(), other.parts()))
    }

    pub open spec fn spec_over(self, other: Binary64) -> Binary64 {
        Self::of_parts(Self::format().quotient(self.parts(), other.parts()))
    }

    /// The number nearest to a natural number.
    pub open spec fn of_nat(n: nat) -> Binary64 {
        Self::of_parts(Self::format().of_nat(n))
    }

    pub open spec fn spec_larger(self, other: Binary64) -> Binary64 {
        if self.nan() || self.spec_lt(other) {
            other
        } else {
            self
        }
    }

    pub open spec fn spec_smaller(self, other: Binary64) -> Binary64 {
        if self.nan() || other.spec_lt(self) {
            other
        } else {
            self
        }
    }

    pub open spec fn spec_clamped(self, lo: Binary64, hi: Binary64) -> Binary64 {
        if self.spec_lt(lo) {
            lo
        } else if hi.spec_lt(self) {
            hi
        } else {
            self
        }
    }

    /// The largest whole number that is not above a finite number.
    pub open spec fn floor_int(self) -> int {
        self.value() / (Self::one_value() as int)
    }

    /// The smallest whole number that is not below a finite number.
    pub open spec fn ceil_int(self) -> int {
        -((-self.value()) / (Self::one_value() as int))
    }

    /// The whole number nearest to a finite number, away from zero on a tie.
    pub open spec fn round_int(self) -> int {
        let one = Self::one_value() as int;
        if self.value() < 0 {
            -((2 * -self.value() + one) / (2 * one))
        } else {
            (2 * self.value() + one) / (2 * one)
        }
    }

    pub fn from_bits(bits: u64) -> (r: Binary64)
        ensures
            r.bits == bits,
    {
        Binary64 { bits }
    }

    pub fn to_bits(self) -> (bits: u64)
        ensures
            bits == self.bits,
    {
        self.bits
    }

    fn take_apart(self) -> (r: Parts)
        ensures
            r == self.parts(),
    {
        Parts { negative: self.bits >= 0x8000_0000_0000_0000, magnitude: (self.bits % 0x8000_0000_0000_0000) as u64 }
    }

    fn put_together(parts: Parts) -> (r: Binary64)
        requires
            parts.magnitude < 0x8000_0000_0000_0000,
        ensures
            r == Self::of_parts(parts),
    {
        Binary64 {
            bits: if parts.negative {
                0x8000_0000_0000_0000 + parts.magnitude as u64
            } else {
                parts.magnitude as u64
            },
        }
    }

    pub fn is_nan(self) -> (r: bool)
        ensures
            r == self.nan(),
    {
        self.bits % 0x8000_0000_0000_0000 > 0x7ff0_0000_0000_0000
    }

    pub fn is_finite(self) -> (r: bool)
        ensures
            r == self.finite(),
    {
        self.bits % 0x8000_0000_0000_0000 < 0x7ff0_0000_0000_0000
    }

    #[verifier::when_used_as_spec(spec_lt)]
    pub fn lt(self, other: Binary64) -> (r: bool)
        ensures
            r == self.spec_lt(other),
    {
        if self.is_nan() || other.is_nan() {
            false
        } else if self.bits >= 0x8000_0000_0000_0000 {
            if other.bits >= 0x8000_0000_0000_0000 {
                other.bits < self.bits
            } else {
                self.bits > 0x8000_0000_0000_0000 || other.bits > 0
            }
        } else {
            other.bits < 0x8000_0000_0000_0000 && self.bits < other.bits
        }
    }

    #[verifier::when_used_as_spec(spec_le)]
    pub fn le(self, other: Binary64) -> (r: bool)
        ensures
            r == self.spec_le(other),
    {
        !self.is_nan() && !other.is_nan() && !other.lt(self)
    }

    /// The number with the other sign.
    #[verifier::when_used_as_spec(spec_negated)]
    pub fn negated(self) -> (r: Binary64)
        ensures
            r == self.spec_negated(),
    {
        Binary64 {
            bits: if self.bits >= 0x8000_0000_0000_0000 {
                self.bits - 0x8000_0000_0000_0000
            } else {
                self.bits + 0x8000_0000_0000_0000
            },
        }
    }

    /// The rounded sum.
    #[verifier::when_used_as_spec(spec_plus)]
    pub fn plus(self, other: Binary64) -> (r: Binary64)
        ensures
            r == self.spec_plus(other),
    {
        let parts: Parts = Format::double().add_parts(self.take_apart(), other.take_apart());
        Self::put_together(parts)
    }

    /// The rounded difference.
    #[verifier::when_used_as_spec(spec_minus)]
    pub fn minus(self, other: Binary64) -> (r: Binary64)
        ensures
            r == self.spec_minus(other),
    {
        self.plus(other.negated())
    }

    /// The rounded product.
    #[verifier::when_used_as_spec(spec_times)]
    pub fn times(self, other: Binary64) -> (r: Binary64)
        ensures
            r == self.spec_times(other),
    {
        let parts: Parts = Format::double().mul_parts(self.take_apart(), other.take_apart());
        Self::put_together(parts)
    }

    /// The rounded quotient.
    #[verifier::when_used_as_spec(spec_over)]
    pub fn over(self, other: Binary64) -> (r: Binary64)
        ensures
            r == self.spec_over(other),
    {
        let parts: Parts = Format::double().div_parts(self.take_apart(), other.take_apart());
        Self::put_together(parts)
    }

    /// The nearest number to a count.
    pub fn from_usize(n: usize) -> (r: Binary64)
        ensures
            r == Self::of_nat(n as nat),
    {
        let parts: Parts = Format::double().from_unsigned(n as u64);
        Self::put_together(parts)
    }

    /// The larger of two numbers; the other one where one is not a number.
    #[verifier::when_used_as_spec(spec_larger)]
    pub fn larger(self, other: Binary64) -> (r: Binary64)
        ensures
            r == self.spec_larger(other),
    {
        if self.is_nan() || self.lt(other) {
            other
        } else {
            self
        }
    }

    /// The smaller of two numbers; the other one where one is not a number.
    #[verifier::when_used_as_spec(spec_smaller)]
    pub fn smaller(self, other: Binary64) -> (r: Binary64)
        ensures
            r == self.spec_smaller(other),
    {
        if self.is_nan() || other.lt(self) {
            other
        } else {
            self
        }
    }

    /// The number, moved to the nearer end where it is outside `lo..=hi`.
    #[verifier::when_used_as_spec(spec_clamped)]
    pub fn clamped(self, lo: Binary64, hi: Binary64) -> (r: Binary64)
        ensures
            r == self.spec_clamped(lo, hi),
    {
        if self.lt(lo) {
            lo
        } else if hi.lt(self) {
            hi
        } else {
            self
        }
    }

    /// Whether this number comes strictly before the other in the total order.
    pub fn total_before(self, other: Binary64) -> (r: bool)
        ensures
            r == (self.total_rank() < other.total_rank()),
    {
        if self.bits >= 0x8000_0000_0000_0000 {
            other.bits < 0x8000_0000_0000_0000 || other.bits < self.bits
        } else {
            other.bits < 0x8000_0000_0000_0000 && self.bits < other.bits
        }
    }

    /// The number rounded down, cut to the range of `i64`; zero where it is not a number.
    pub fn floor_i64(self) -> (r: i64)
        ensures
            r == self.to_i64(self.floor_int()),
    {
        self.whole_i64(true, false, false)
    }

    /// The number rounded up, cut to the range of `i64`; zero where it is not a number.
    pub fn ceil_i64(self) -> (r: i64)
        ensures
            r == self.to_i64(self.ceil_int()),
    {
        self.whole_i64(false, true, false)
    }

    /// The number rounded to the nearest whole number, cut to the range of `i64`; zero where it is
    /// not a number.
    pub fn round_i64(self) -> (r: i64)
        ensures
            r == self.to_i64(self.round_int()),
    {
        self.whole_i64(false, false, true)
    }

    /// A whole number cut to the range of `i64`, given what `self` is rounded to.
    pub open spec fn to_i64(self, whole: int) -> i64 {
        if self.nan() {
            0
        } else if !self.finite() {
            if self.bits >= 0x8000_0000_0000_0000 {
                i64::MIN
            } else {
                i64::MAX
            }
        } else if whole < i64::MIN {
            i64::MIN
        } else if whole > i64::MAX {
            i64::MAX
        } else {
            whole as i64
        }
    }

    /// A whole number cut to the range of `usize`, given what `self` is rounded to.
    pub open spec fn to_usize(self, whole: int) -> usize {
        if self.nan() {
            0
        } else if !self.finite() {
            if self.bits >= 0x8000_0000_0000_0000 {
                0
            } else {
                usize::MAX
            }
        } else if whole < 0 {
            0
        } else if whole > usize::MAX {
            usize::MAX
        } else {
            whole as usize
        }
    }

    fn whole_i64(self, down: bool, up: bool, near: bool) -> (r: i64)
        requires
            down || up || near,
        ensures
            down ==> r == self.to_i64(self.floor_int()),
            !down && up ==> r == self.to_i64(self.ceil_int()),
            !down && !up ==> r == self.to_i64(self.round_int()),
    {
        if self.is_nan() {
            return 0;
        }
        let negative: bool = self.bits >= 0x8000_0000_0000_0000;
        if !self.is_finite() {
            return if negative {
                i64::MIN
            } else {
                i64::MAX
            };
        }
        let (whole, more, half) = Format::double().split((self.bits % 0x8000_0000_0000_0000) as u64);
        let away: bool = if down {
            negative && more
        } else if up {
            !negative && more
        } else {
            half
        };
        let ghost w = Self::format().whole(self.parts().magnitude as nat);
        proof {
            lemma_pow2_pos(1074);
            lemma_whole(
                Self::format().units(self.parts().magnitude as nat),
                pow2(1074),
            );
        }
        let size: u64 = if away && whole < u64::MAX {
            whole + 1
        } else {
            whole
        };
        if negative {
            if size >= 0x8000_0000_0000_0000 {
                i64::MIN
            } else {
                -(size as i64)
            }
        } else if size > 0x7fff_ffff_ffff_ffff {
            i64::MAX
        } else {
            size as i64
        }
    }

    fn whole_usize(self, down: bool, up: bool, near: bool) -> (r: usize)
        requires
            down || up || near,
        ensures
            down ==> r == self.to_usize(self.floor_int()),
            !down && up ==> r == self.to_usize(self.ceil_int()),
            !down && !up ==> r == self.to_usize(self.round_int()),
    {
        if self.is_nan() {
            return 0;
        }
        let negative: bool = self.bits >= 0x8000_0000_0000_0000;
        if !self.is_finite() {
            return if negative {
                0
            } else {
                usize::MAX
            };
        }
        let (whole, more, half) = Format::double().split((self.bits % 0x8000_0000_0000_0000) as u64);
        let away: bool = if down {
            negative && more
        } else if up {
            !negative && more
        } else {
            half
        };
        proof {
            lemma_pow2_pos(1074);
            lemma_whole(
                Self::format().units(self.parts().magnitude as nat),
                pow2(1074),
            );
        }
        if negative {
            return 0;
        }
        let size: u64 = if away && whole < u64::MAX {
            whole + 1
        } else {
            whole
        };
        if size >= usize::MAX as u64 {
            usize::MAX
        } else {
            size as usize
        }
    }

    /// The number rounded down, cut to the range of `usize`; zero where it is not a number.
    pub fn floor_usize(self) -> (r: usize)
        ensures
            r == self.to_usize(self.floor_int()),
    {
        self.whole_usize(true, false, false)
    }

    /// The number rounded up, cut to the range of `usize`; zero where it is not a number.
    pub fn ceil_usize(self) -> (r: usize)
        ensures
            r == self.to_usize(self.ceil_int()),
    {
        self.whole_usize(false, true, false)
    }

    /// The number rounded to the nearest whole number, cut to the range of `usize`; zero where it
    /// is not a number.
    pub fn round_usize(self) -> (r: usize)
        ensures
            r == self.to_usize(self.round_int()),
    {
        self.whole_usize(false, false, true)
    }
}

/// The magnitude of a whole number of at most 53 binary digits.
proof fn lemma_whole_double(n: nat)
    requires
        n < 0x20_0000_0000_0000,
    ensures
        ({
            let x = Binary64::of_nat(n);
            &&& !x.parts().negative
            &&& x.parts().magnitude < 0x7ff0_0000_0000_0000
            &&& Binary64::format().units(x.parts().magnitude as nat) == n * pow2(1074)
            &&& x.parts().magnitude == 0 <==> n == 0
        }),
{
    let format = Binary64::format();
    assert(format.infinity() == 0x7ff0_0000_0000_0000);
    let units = n * pow2(1074);
    lemma_pow2_pos(1074);
    if n == 0 {
        assert(units == 0) by (nonlinear_arith)
            requires
                units == n * pow2(1074),
                n == 0,
        ;
        lemma_encode_zero(1, 53);
        assert(format.units(0) == 0) by (nonlinear_arith)
            requires
                format.units(0) == 0 * pow2(0),
        ;
    } else {
        lemma2_to64();
        lemma_pow2_adds(32, 20);
        lemma_pow2_adds(32, 21);
        assert(pow2(52) == 0x10_0000_0000_0000);
        assert(pow2(53) == 0x20_0000_0000_0000);
        let l = lemma_digits(n, 53);
        let s = (l + 1021) as nat;
        let up = (53 - l) as nat;
        let m = n * pow2(up);
        lemma_pow2_pos(s);
        lemma_pow2_pos(up);
        lemma_pow2_adds((l - 1) as nat, 1074);
        lemma_pow2_adds(l, 1074);
        lemma_pow2_adds(up, s);
        lemma_pow2_adds((l - 1) as nat, up);
        lemma_pow2_adds(l, up);
        let (unit, step, scale) = (pow2(1074), pow2(s), pow2(up));
        assert(pow2((l - 1) as nat) * unit <= units && units < pow2(l) * unit) by (nonlinear_arith)
            requires
                units == n * unit,
                pow2((l - 1) as nat) <= n < pow2(l),
                unit > 0,
        ;
        lemma_excess_bits(units, 53, s);
        assert(units == m * step) by (nonlinear_arith)
            requires
                units == n * unit,
                unit == scale * step,
                m == n * scale,
        ;
        assert(0x10_0000_0000_0000 <= m < 0x20_0000_0000_0000) by (nonlinear_arith)
            requires
                m == n * scale,
                pow2((l - 1) as nat) <= n < pow2(l),
                pow2((l - 1) as nat) * scale == 0x10_0000_0000_0000,
                pow2(l) * scale == 0x20_0000_0000_0000,
                scale > 0,
        ;
        assert(units / 1 == units);
        assert(nearest_even(units, 1 * step) == m) by {
            vstd::arithmetic::div_mod::lemma_fundamental_div_mod_converse(
                units as int,
                step as int,
                m as int,
                0,
            );
        }
        let code = s * 0x10_0000_0000_0000 + m;
        assert(encode(units, 1, 53) == code);
        assert(code == (s + 1) * 0x10_0000_0000_0000 + (m - 0x10_0000_0000_0000));
        vstd::arithmetic::div_mod::lemma_fundamental_div_mod_converse(
            code as int,
            0x10_0000_0000_0000,
            (s + 1) as int,
            m - 0x10_0000_0000_0000,
        );
        assert(code < 0x7ff0_0000_0000_0000);
        assert(format.significand(code) == m);
        assert(format.shift(code) == s);
    }
}

/// Whole numbers of at most 53 binary digits are represented exactly, so that rounding one gives it
/// back.
pub proof fn lemma_whole_doubles_exact(n: nat)
    requires
        n < 0x20_0000_0000_0000,
    ensures
        Binary64::of_nat(n).finite(),
        Binary64::of_nat(n).value() == n * Binary64::one_value(),
        Binary64::of_nat(n).to_i64(Binary64::of_nat(n).round_int()) == n,
{
    lemma_whole_double(n);
    lemma_pow2_pos(1074);
    let (ni, one) = (n as int, pow2(1074) as int);
    assert(2 * (ni * one) + one == ni * (2 * one) + one) by (nonlinear_arith);
    assert(ni * one >= 0) by (nonlinear_arith)
        requires
            ni >= 0,
            one >= 0,
    ;
    vstd::arithmetic::div_mod::lemma_fundamental_div_mod_converse(
        2 * (ni * one) + one,
        2 * one,
        ni,
        one,
    );
}

/// The product of two whole numbers of at most 53 binary digits is the number nearest to their
/// product.
pub proof fn lemma_double_product(a: nat, b: nat)
    requires
        a < 0x20_0000_0000_0000,
        b < 0x20_0000_0000_0000,
    ensures
        Binary64::of_nat(a).times(Binary64::of_nat(b)) == Binary64::of_nat(a * b),
{
    let one = pow2(1074);
    lemma_pow2_pos(1074);
    lemma_whole_double(a);
    lemma_whole_double(b);
    let exact = (a * one) * (b * one);
    assert(exact * 1 == ((a * b) * one) * one) by (nonlinear_arith)
        requires
            exact == (a * one) * (b * one),
    ;
    lemma_encode_ratio(exact, one, (a * b) * one, 1, 53);
}

/// Where one whole number of at most 53 binary digits divides another, their quotient is exact.
pub proof fn lemma_double_quotient(q: nat, d: nat)
    requires
        q * d < 0x20_0000_0000_0000,
        0 < d < 0x20_0000_0000_0000,
    ensures
        Binary64::of_nat(q * d).over(Binary64::of_nat(d)) == Binary64::of_nat(q),
{
    let one = pow2(1074);
    lemma_pow2_pos(1074);
    lemma_whole_double(q * d);
    lemma_whole_double(d);
    let n = (q * d) * one * one;
    assert(d * one > 0) by (nonlinear_arith)
        requires
            d > 0,
            one > 0,
    ;
    assert(n * 1 == (q * one) * (d * one)) by (nonlinear_arith)
        requires
            n == (q * d) * one * one,
    ;
    lemma_encode_ratio(n, d * one, q * one, 1, 53);
}

} // verus!
