//! The frequencies of the decoder's rotary positions.
//!
//! A pair of hidden channels turns with the position of its token, each pair at a frequency of its
//! own. A decoder that was stretched over longer sequences slows the pairs that turn slowly, leaves
//! those that turn fast, and blends between the two.
use crate::arith::{max_int, max_usize};
use crate::format::abs_nat;
use crate::ieee::Binary32;
use crate::nearness::{
    lemma_single_held, lemma_single_ordered, lemma_single_over_between, lemma_single_over_near,
    lemma_single_plus_between, lemma_single_plus_near, lemma_single_times_between,
    lemma_single_times_near,
};
use crate::placement::{is_unit, lemma_simple_values};
use crate::trace::{single, ONE_BITS, ZERO_BITS};
use vstd::prelude::*;

verus! {

/// The full turn.
pub const TURN_BITS: u32 = 0x40c9_0fdb;

/// One millionth, the least gap between the two factors.
pub const LEAST_GAP_BITS: u32 = 0x3586_37bd;

/// One trillionth, the least frequency whose wavelength is taken.
pub const LEAST_FREQUENCY_BITS: u32 = 0x2b8c_bccc;

/// How a decoder was stretched over longer sequences.
#[derive(Clone, Copy, Debug)]
pub struct RopeScaling {
    pub factor: Binary32,
    pub low_freq_factor: Binary32,
    pub high_freq_factor: Binary32,
    pub original_max_position_embeddings: Binary32,
}

impl RopeScaling {
    /// How much slow pairs are slowed.
    pub open spec fn slowdown(self) -> Binary32 {
        self.factor.larger(single(ONE_BITS))
    }

    /// Pairs with a longer wavelength turn slowly.
    pub open spec fn slow_wavelength(self) -> Binary32 {
        self.original_max_position_embeddings.over(self.low_freq_factor.larger(single(ONE_BITS)))
    }

    /// Pairs with a shorter wavelength turn fast.
    pub open spec fn fast_wavelength(self) -> Binary32 {
        self.original_max_position_embeddings.over(
            self.high_freq_factor.larger(self.low_freq_factor.plus(single(LEAST_GAP_BITS))),
        )
    }

    /// How fast a pair between the two turns.
    pub open spec fn blend(self, wavelength: Binary32) -> Binary32 {
        self.original_max_position_embeddings.over(wavelength).minus(self.low_freq_factor).over(
            self.high_freq_factor.minus(self.low_freq_factor).larger(single(LEAST_GAP_BITS)),
        )
    }

    /// The frequency that a pair turns at.
    pub open spec fn scaled(self, frequency: Binary32) -> Binary32 {
        let wavelength = wavelength_of(frequency);
        if self.slow_wavelength().lt(wavelength) {
            frequency.over(self.slowdown())
        } else if self.fast_wavelength().le(wavelength) && wavelength.le(self.slow_wavelength()) {
            let blend = self.blend(wavelength);
            single(ONE_BITS).minus(blend).times(frequency).over(self.slowdown()).plus(
                blend.times(frequency),
            )
        } else {
            frequency
        }
    }

    /// The frequency that a pair turns at: slow pairs are slowed, fast pairs are left, and those
    /// between are blended.
    pub fn scaled_frequency(&self, frequency: Binary32) -> (r: Binary32)
        ensures
            r == self.scaled(frequency),
    {
        let one: Binary32 = Binary32::from_bits(ONE_BITS);
        let gap: Binary32 = Binary32::from_bits(LEAST_GAP_BITS);
        let slowdown: Binary32 = self.factor.larger(one);
        let slow: Binary32 = self.original_max_position_embeddings.over(
            self.low_freq_factor.larger(one),
        );
        let fast: Binary32 = self.original_max_position_embeddings.over(
            self.high_freq_factor.larger(self.low_freq_factor.plus(gap)),
        );
        let wavelength: Binary32 = Binary32::from_bits(TURN_BITS).over(
            frequency.larger(Binary32::from_bits(LEAST_FREQUENCY_BITS)),
        );
        if slow.lt(wavelength) {
            frequency.over(slowdown)
        } else if fast.le(wavelength) && wavelength.le(slow) {
            let blend: Binary32 = self.original_max_position_embeddings.over(wavelength).minus(
                self.low_freq_factor,
            ).over(self.high_freq_factor.minus(self.low_freq_factor).larger(gap));
            one.minus(blend).times(frequency).over(slowdown).plus(blend.times(frequency))
        } else {
            frequency
        }
    }
}

/// The positions over which a pair makes one turn.
pub open spec fn wavelength_of(frequency: Binary32) -> Binary32 {
    single(TURN_BITS).over(frequency.larger(single(LEAST_FREQUENCY_BITS)))
}

/// The number of channel pairs of a head, at least one.
pub open spec fn pair_count(head_dim: nat) -> int {
    max_int(max_int(head_dim as int, 1) / 2, 1)
}

/// The power of the base that pair `i` divides by.
pub open spec fn exponent(head_dim: nat, i: int) -> Binary32 {
    Binary32::of_nat((2 * i) as nat).over(
        Binary32::of_nat(max_int(head_dim as int, 1) as nat),
    )
}

/// The powers of the base that the pairs of a head divide by.
pub fn rope_exponents(head_dim: usize) -> (r: Vec<Binary32>)
    ensures
        r@ == Seq::new(pair_count(head_dim as nat) as nat, |i: int| exponent(head_dim as nat, i)),
{
    let dim: usize = max_usize(head_dim, 1);
    let half: usize = max_usize(dim / 2, 1);
    let whole: Binary32 = Binary32::from_usize(dim);
    let mut exponents: Vec<Binary32> = Vec::new();
    for i in 0..half
        invariant
            dim == max_int(head_dim as int, 1),
            half == max_int(dim as int / 2, 1),
            whole == Binary32::of_nat(dim as nat),
            exponents@ == Seq::new(i as nat, |k: int| exponent(head_dim as nat, k)),
    {
        exponents.push(Binary32::from_usize(i * 2).over(whole));
    }
    exponents
}

/// The frequency of pair `i`, given the powers of the base.
pub open spec fn pair_frequency(
    powers: Seq<Binary32>,
    scaling: Option<RopeScaling>,
    i: int,
) -> Binary32 {
    let frequency = single(ONE_BITS).over(powers[i]);
    match scaling {
        Some(scaling) => scaling.scaled(frequency),
        None => frequency,
    }
}

/// The frequencies of the pairs of a head. `powers` holds the base, raised to each of
/// `rope_exponents`.
pub fn llama3_inv_freq(powers: &[Binary32], scaling: Option<RopeScaling>) -> (r: Vec<Binary32>)
    ensures
        r@ == Seq::new(powers@.len(), |i: int| pair_frequency(powers@, scaling, i)),
{
    let one: Binary32 = Binary32::from_bits(ONE_BITS);
    let count: usize = powers.len();
    let mut frequencies: Vec<Binary32> = Vec::new();
    for i in 0..count
        invariant
            count == powers@.len(),
            one == single(ONE_BITS),
            frequencies@ == Seq::new(i as nat, |k: int| pair_frequency(powers@, scaling, k)),
    {
        let frequency: Binary32 = one.over(powers[i]);
        frequencies.push(match scaling {
            Some(scaling) => scaling.scaled_frequency(frequency),
            None => frequency,
        });
    }
    frequencies
}

/// A pair that turns slowly is slowed by the factor, and one that turns fast is left.
pub proof fn lemma_slow_and_fast_pairs(scaling: RopeScaling, frequency: Binary32)
    requires
        frequency.finite(),
        frequency.value() > 0,
        scaling.factor.finite(),
        wavelength_of(frequency).finite(),
        scaling.slow_wavelength().finite(),
        scaling.fast_wavelength().finite(),
    ensures
        ({
            let r = scaling.scaled(frequency);
            let one = Binary32::one_value();
            let (f, s) = (frequency.value(), scaling.factor.value());
            let w = wavelength_of(frequency).value();
            let off = abs_nat(r.value() * s - f * one);
            &&& w > scaling.slow_wavelength().value() && s >= one ==> r.finite() && (2 * off <= s
                || 0x100_0000 * off <= f * one)
            &&& w > scaling.slow_wavelength().value() && s <= one ==> r.value() == f
            &&& w < scaling.fast_wavelength().value() && w <= scaling.slow_wavelength().value()
                ==> r == frequency
        }),
{
    lemma_simple_values();
    let one = Binary32::one_value() as int;
    let unit = single(ONE_BITS);
    let w = wavelength_of(frequency);
    lemma_single_ordered(scaling.slow_wavelength(), w);
    lemma_single_ordered(scaling.fast_wavelength(), w);
    lemma_single_ordered(scaling.factor, unit);
    if scaling.slow_wavelength().value() < w.value() {
        lemma_slowed(frequency, scaling.factor);
    }
}

/// A frequency that is divided by a factor of at least one.
proof fn lemma_slowed(frequency: Binary32, factor: Binary32)
    requires
        frequency.finite(),
        frequency.value() >= 0,
        factor.finite(),
    ensures
        ({
            let s = factor.larger(single(ONE_BITS));
            let r = frequency.over(s);
            let one = Binary32::one_value();
            let off = abs_nat(r.value() * s.value() - frequency.value() * one);
            &&& s.finite()
            &&& s.value() >= one
            &&& factor.value() >= one ==> s.value() == factor.value()
            &&& r.finite()
            &&& 0 <= r.value() <= frequency.value()
            &&& factor.value() <= one ==> r.value() == frequency.value()
            &&& 2 * off <= s.value() || 0x100_0000 * off <= frequency.value() * one
        }),
{
    lemma_simple_values();
    let one = Binary32::one_value() as int;
    let unit = single(ONE_BITS);
    lemma_single_ordered(factor, unit);
    let s = factor.larger(unit);
    let (f, v) = (frequency.value(), s.value());
    assert(0 * v == 0) by (nonlinear_arith);
    assert(0 <= f * one <= f * v) by (nonlinear_arith)
        requires
            f >= 0,
            0 < one <= v,
    ;
    lemma_single_over_between(frequency, s, single(ZERO_BITS), frequency);
    lemma_single_over_near(frequency, s);
    if v == one {
        lemma_single_over_between(frequency, s, frequency, frequency);
    }
}

/// A pair between slow and fast ones is slowed by no more than the factor, and not sped up, where
/// its blend lies in the unit interval: up to rounding, its frequency lies between that of a slowed
/// pair and its own.
#[verifier::rlimit(40)]
pub proof fn lemma_blended_pair(scaling: RopeScaling, frequency: Binary32)
    requires
        frequency.finite(),
        frequency.value() > 0,
        scaling.factor.finite(),
        wavelength_of(frequency).finite(),
        scaling.slow_wavelength().finite(),
        scaling.fast_wavelength().finite(),
        scaling.fast_wavelength().value() <= wavelength_of(frequency).value()
            <= scaling.slow_wavelength().value(),
        is_unit(scaling.blend(wavelength_of(frequency))),
        frequency.value() <= 0x100_0000 * Binary32::one_value(),
    ensures
        ({
            let r = scaling.scaled(frequency);
            let one = Binary32::one_value();
            let s = scaling.slowdown().value();
            let f = frequency.value();
            &&& r.finite()
            &&& s >= one
            &&& 0x20_0000 * r.value() <= 0x20_0001 * f + 0x20_0000 * 4
            &&& 0x20_0000 * (f * one) <= 0x20_0001 * (r.value() * s) + 0x20_0000 * (4 * s)
        }),
{
    let w = wavelength_of(frequency);
    lemma_single_ordered(scaling.slow_wavelength(), w);
    lemma_single_ordered(w, scaling.slow_wavelength());
    lemma_single_ordered(scaling.fast_wavelength(), w);
    let blend = scaling.blend(w);
    lemma_blend_is_between(blend, frequency, scaling.factor);
    assert(scaling.scaled(frequency) == blended(blend, frequency, scaling.slowdown()));
}

/// A frequency of which a blend is left and the rest is slowed.
spec fn blended(blend: Binary32, frequency: Binary32, slowdown: Binary32) -> Binary32 {
    single(ONE_BITS).minus(blend).times(frequency).over(slowdown).plus(blend.times(frequency))
}

/// What a blend leaves of one.
proof fn lemma_rest_of(blend: Binary32)
    requires
        is_unit(blend),
    ensures
        ({
            let one = Binary32::one_value();
            let rest = single(ONE_BITS).minus(blend);
            &&& is_unit(rest)
            &&& 0x100_0000 * abs_nat(rest.value() - (one - blend.value())) <= one - blend.value()
        }),
{
    lemma_simple_values();
    let (zero, unit) = (single(ZERO_BITS), single(ONE_BITS));
    let minus = blend.negated();
    assert(minus.finite() && minus.value() == -blend.value());
    lemma_single_plus_between(unit, minus, zero, unit);
    lemma_single_plus_near(unit, minus);
}

#[verifier::rlimit(40)]
proof fn lemma_blend_is_between(blend: Binary32, frequency: Binary32, factor: Binary32)
    requires
        is_unit(blend),
        frequency.finite(),
        0 < frequency.value() <= 0x100_0000 * Binary32::one_value(),
        factor.finite(),
    ensures
        ({
            let s = factor.larger(single(ONE_BITS));
            let r = blended(blend, frequency, s);
            let one = Binary32::one_value();
            let f = frequency.value();
            &&& r.finite()
            &&& s.value() >= one
            &&& 0x20_0000 * r.value() <= 0x20_0001 * f + 0x20_0000 * 4
            &&& 0x20_0000 * (f * one) <= 0x20_0001 * (r.value() * s.value()) + 0x20_0000 * (4
                * s.value())
        }),
{
    lemma_simple_values();
    let one = Binary32::one_value() as int;
    lemma_rest_of(blend);
    let rest = single(ONE_BITS).minus(blend);
    lemma_share_of_frequency(rest, frequency);
    lemma_share_of_frequency(blend, frequency);
    let (kept, more) = (rest.times(frequency), blend.times(frequency));
    lemma_slowed(kept, factor);
    let s = factor.larger(single(ONE_BITS));
    let slowed = kept.over(s);
    lemma_bounded_sum(slowed, more, frequency);
    lemma_blend_off(
        slowed.plus(more).value(),
        slowed.value(),
        more.value(),
        kept.value(),
        rest.value(),
        blend.value(),
        frequency.value(),
        s.value(),
        one,
    );
}

proof fn lemma_bounded_sum(a: Binary32, b: Binary32, most: Binary32)
    requires
        a.finite(),
        b.finite(),
        0 <= a.value() <= most.value(),
        0 <= b.value() <= most.value(),
        most.value() <= 0x100_0000 * Binary32::one_value(),
    ensures
        a.plus(b).finite(),
        a.plus(b).value() >= 0,
        0x100_0000 * abs_nat(a.plus(b).value() - (a.value() + b.value())) <= a.value() + b.value(),
{
    lemma_simple_values();
    let top = lemma_single_held(0x100_0000, 150);
    vstd::arithmetic::power2::lemma_pow2_unfold(150);
    lemma_single_plus_between(a, b, single(ZERO_BITS), top);
    lemma_single_plus_near(a, b);
}

/// A share of a frequency, up to rounding.
proof fn lemma_share_of_frequency(share: Binary32, frequency: Binary32)
    requires
        is_unit(share),
        frequency.finite(),
        frequency.value() >= 0,
    ensures
        ({
            let r = share.times(frequency);
            let one = Binary32::one_value();
            let exact = share.value() * frequency.value();
            let off = abs_nat(r.value() * one - exact);
            &&& r.finite()
            &&& 0 <= r.value() <= frequency.value()
            &&& 2 * off <= one || 0x100_0000 * off <= exact
        }),
{
    lemma_simple_values();
    let one = Binary32::one_value() as int;
    let (a, f) = (share.value(), frequency.value());
    assert(0 * one == 0) by (nonlinear_arith);
    assert(0 <= a * f <= f * one) by (nonlinear_arith)
        requires
            0 <= a <= one,
            f >= 0,
    ;
    lemma_single_times_between(share, frequency, single(ZERO_BITS), frequency);
    lemma_single_times_near(share, frequency);
}

/// What is off in the parts of a blend.
#[verifier::rlimit(40)]
proof fn lemma_blend_off(
    r: int,
    c: int,
    d: int,
    a: int,
    k: int,
    b: int,
    f: int,
    s: int,
    one: int,
)
    requires
        one > 0x100_0000,
        s >= one,
        f > 0,
        0 <= b <= one,
        0 <= k <= one,
        0 <= a,
        0 <= c <= a,
        0 <= d,
        0 <= r,
        0x100_0000 * abs_nat(k - (one - b)) <= one - b,
        2 * abs_nat(a * one - k * f) <= one || 0x100_0000 * abs_nat(a * one - k * f) <= k * f,
        2 * abs_nat(d * one - b * f) <= one || 0x100_0000 * abs_nat(d * one - b * f) <= b * f,
        2 * abs_nat(c * s - a * one) <= s || 0x100_0000 * abs_nat(c * s - a * one) <= a * one,
        0x100_0000 * abs_nat(r - (c + d)) <= c + d,
    ensures
        0x20_0000 * r <= 0x20_0001 * f + 0x20_0000 * 4,
        0x20_0000 * (f * one) <= 0x20_0001 * (r * s) + 0x20_0000 * (4 * s),
{
    let m = 0x100_0000int;
    let (ka, kb) = (k * f, b * f);
    let fo = f * one;
    assert(ka >= 0 && kb >= 0 && fo > 0) by (nonlinear_arith)
        requires
            ka == k * f,
            kb == b * f,
            fo == f * one,
            k >= 0,
            b >= 0,
            f > 0,
            one > 0,
    ;
    let rest = fo - kb;
    assert(rest == (one - b) * f && rest >= 0) by (nonlinear_arith)
        requires
            rest == f * one - b * f,
            b <= one,
            f > 0,
    ;
    assert(m * (ka - rest) <= rest && m * (rest - ka) <= rest) by (nonlinear_arith)
        requires
            ka == k * f,
            rest == (one - b) * f,
            m * (k - (one - b)) <= one - b,
            m * ((one - b) - k) <= one - b,
            f > 0,
            m > 0,
    {
        assert((m * (k - (one - b))) * f <= (one - b) * f);
        assert((m * ((one - b) - k)) * f <= (one - b) * f);
    }
    let (ao, dd, ro) = (a * one, d * one, r * one);
    assert(m * (ao - ka) <= ka + m * one && m * (ka - ao) <= ka + m * one);
    assert(m * (dd - kb) <= kb + m * one && m * (kb - dd) <= kb + m * one);
    let co = c * one;
    assert(co <= ao && co >= 0 && dd >= 0) by (nonlinear_arith)
        requires
            co == c * one,
            ao == a * one,
            dd == d * one,
            0 <= c <= a,
            d >= 0,
            one > 0,
    ;
    assert(m * (ro - (co + dd)) <= co + dd && m * ((co + dd) - ro) <= co + dd) by (nonlinear_arith)
        requires
            ro == r * one,
            co == c * one,
            dd == d * one,
            m * (r - (c + d)) <= c + d,
            m * ((c + d) - r) <= c + d,
            one > 0,
            m > 0,
    {
        assert((m * (r - (c + d))) * one <= (c + d) * one);
        assert((m * ((c + d) - r)) * one <= (c + d) * one);
    }
    assert(0x20_0000 * ro <= 0x20_0001 * fo + 0x20_0000 * (4 * one));
    assert(0x20_0000 * r <= 0x20_0001 * f + 0x20_0000 * 4) by (nonlinear_arith)
        requires
            0x20_0000 * (r * one) <= 0x20_0001 * (f * one) + 0x20_0000 * (4 * one),
            one > 0,
    ;
    let (cs, ds, rs) = (c * s, d * s, r * s);
    assert(m * (ao - cs) <= ao + m * s);
    assert(ds >= dd) by (nonlinear_arith)
        requires
            ds == d * s,
            dd == d * one,
            d >= 0,
            s >= one,
    ;
    assert(m * ((cs + ds) - rs) <= cs + ds) by (nonlinear_arith)
        requires
            rs == r * s,
            cs == c * s,
            ds == d * s,
            m * ((c + d) - r) <= c + d,
            s > 0,
            m > 0,
    {
        assert((m * ((c + d) - r)) * s <= (c + d) * s);
    }
    assert(cs >= 0 && rs >= 0) by (nonlinear_arith)
        requires
            cs == c * s,
            rs == r * s,
            c >= 0,
            r >= 0,
            s > 0,
    ;
    assert(0x20_0000 * fo <= 0x20_0001 * rs + 0x20_0000 * (4 * s));
}

} // verus!
