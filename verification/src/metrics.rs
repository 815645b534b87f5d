//! Running averages of runtime measurements.
use crate::format::abs_nat;
use crate::ieee::Binary64;
use crate::nearness::{
    lemma_double_ordered, lemma_double_over_near, lemma_double_plus_between, lemma_double_plus_near,
    lemma_double_times_between, lemma_double_times_near,
};
use crate::text::{append_fixed, fixed_text};
use vstd::arithmetic::power2::{
    lemma2_to64, lemma2_to64_rest, lemma_pow2_adds, lemma_pow2_pos, pow2,
};
use vstd::prelude::*;
use vstd::string::StringExecFns;

verus! {

/// The bits of zero.
pub const ZERO_DOUBLE_BITS: u64 = 0;

/// The bits of one.
pub const ONE_DOUBLE_BITS: u64 = 0x3ff0_0000_0000_0000;

/// The bits of one thousand.
pub const THOUSAND_BITS: u64 = 0x408f_4000_0000_0000;

/// The bits of one hundred.
pub const HUNDRED_BITS: u64 = 0x4059_0000_0000_0000;

/// The bits of the positive infinity.
pub const INFINITY_BITS: u64 = 0x7ff0_0000_0000_0000;

/// The bits of the default weight of a new sample, 0.15.
pub const DEFAULT_METRIC_EMA_ALPHA_BITS: u64 = 0x3fc3_3333_3333_3333;

pub open spec fn spec_double(bits: u64) -> Binary64 {
    Binary64 { bits }
}

/// The number with the given bits.
#[verifier::when_used_as_spec(spec_double)]
pub fn double(bits: u64) -> (r: Binary64)
    ensures
        r == spec_double(bits),
{
    Binary64::from_bits(bits)
}

/// A weight moved into the unit interval.
pub open spec fn weight(alpha: Binary64) -> Binary64 {
    alpha.clamped(double(ZERO_DOUBLE_BITS), double(ONE_DOUBLE_BITS))
}

/// The average after a sample: the sample replaces an average that is not finite, and one that is
/// not finite itself replaces any.
pub open spec fn averaged(previous: Binary64, current: Binary64, alpha: Binary64) -> Binary64 {
    if previous.finite() && current.finite() {
        previous.times(double(ONE_DOUBLE_BITS).minus(weight(alpha))).plus(
            current.times(weight(alpha)),
        )
    } else {
        current
    }
}

pub fn ema_metric(previous: Binary64, current: Binary64, alpha: Binary64) -> (r: Binary64)
    ensures
        r == averaged(previous, current, alpha),
{
    if previous.is_finite() && current.is_finite() {
        let share: Binary64 = alpha.clamped(double(ZERO_DOUBLE_BITS), double(ONE_DOUBLE_BITS));
        let kept: Binary64 = previous.times(double(ONE_DOUBLE_BITS).minus(share));
        kept.plus(current.times(share))
    } else {
        current
    }
}

/// A measurement with its exponential moving average.
#[derive(Clone, Copy, Debug, PartialEq, Eq, Structural)]
pub struct AutoGazeEmaMetric {
    pub current: Binary64,
    pub ema: Binary64,
    pub initialized: bool,
    pub alpha: Binary64,
}

impl Default for AutoGazeEmaMetric {
    fn default() -> (r: AutoGazeEmaMetric)
        ensures
            r == AutoGazeEmaMetric::fresh(double(DEFAULT_METRIC_EMA_ALPHA_BITS)),
    {
        AutoGazeEmaMetric::new(double(DEFAULT_METRIC_EMA_ALPHA_BITS))
    }
}

impl AutoGazeEmaMetric {
    /// A metric without samples.
    pub open spec fn fresh(alpha: Binary64) -> AutoGazeEmaMetric {
        AutoGazeEmaMetric {
            current: double(ZERO_DOUBLE_BITS),
            ema: double(ZERO_DOUBLE_BITS),
            initialized: false,
            alpha,
        }
    }

    pub fn new(alpha: Binary64) -> (r: AutoGazeEmaMetric)
        ensures
            r == AutoGazeEmaMetric::fresh(alpha),
    {
        AutoGazeEmaMetric {
            current: double(ZERO_DOUBLE_BITS),
            ema: double(ZERO_DOUBLE_BITS),
            initialized: false,
            alpha,
        }
    }

    pub fn current(&self) -> (r: Binary64)
        ensures
            r == self.current,
    {
        self.current
    }

    pub fn ema(&self) -> (r: Binary64)
        ensures
            r == self.ema,
    {
        self.ema
    }

    pub fn is_initialized(&self) -> (r: bool)
        ensures
            r == self.initialized,
    {
        self.initialized
    }

    pub fn alpha(&self) -> (r: Binary64)
        ensures
            r == self.alpha,
    {
        self.alpha
    }

    /// The metric after a sample; the first sample is its own average.
    pub open spec fn recorded(self, current: Binary64) -> AutoGazeEmaMetric {
        AutoGazeEmaMetric {
            current,
            ema: if self.initialized {
                averaged(self.ema, current, self.alpha)
            } else {
                current
            },
            initialized: true,
            alpha: self.alpha,
        }
    }

    pub fn record(&mut self, current: Binary64)
        ensures
            *final(self) == old(self).recorded(current),
    {
        self.current = current;
        if self.initialized {
            self.ema = ema_metric(self.ema, current, self.alpha);
        } else {
            self.initialized = true;
            self.ema = current;
        }
    }
}

/// A share moved into the unit interval; zero where it is not finite.
pub open spec fn sane_ratio(ratio: Binary64) -> Binary64 {
    if ratio.finite() {
        ratio.clamped(double(ZERO_DOUBLE_BITS), double(ONE_DOUBLE_BITS))
    } else {
        double(ZERO_DOUBLE_BITS)
    }
}

pub fn sanitize_gaze_ratio(ratio: Binary64) -> (r: Binary64)
    ensures
        r == sane_ratio(ratio),
{
    if ratio.is_finite() {
        ratio.clamped(double(ZERO_DOUBLE_BITS), double(ONE_DOUBLE_BITS))
    } else {
        double(ZERO_DOUBLE_BITS)
    }
}

/// The share of the frame that is looked at.
#[derive(Clone, Copy, Debug, PartialEq, Eq, Structural)]
pub struct AutoGazeGazeRatioStats {
    pub metric: AutoGazeEmaMetric,
}

impl Default for AutoGazeGazeRatioStats {
    fn default() -> (r: AutoGazeGazeRatioStats)
        ensures
            r.metric == AutoGazeEmaMetric::fresh(double(DEFAULT_METRIC_EMA_ALPHA_BITS)),
    {
        AutoGazeGazeRatioStats { metric: AutoGazeEmaMetric::default() }
    }
}

impl AutoGazeGazeRatioStats {
    /// Samples are brought into the unit interval first.
    pub fn record(&mut self, ratio: Binary64)
        ensures
            final(self).metric == old(self).metric.recorded(sane_ratio(ratio)),
    {
        self.metric.record(sanitize_gaze_ratio(ratio));
    }

    pub fn current(&self) -> (r: Binary64)
        ensures
            r == self.metric.current,
    {
        self.metric.current()
    }

    pub fn ema(&self) -> (r: Binary64)
        ensures
            r == self.metric.ema,
    {
        self.metric.ema()
    }

    pub fn is_initialized(&self) -> (r: bool)
        ensures
            r == self.metric.initialized,
    {
        self.metric.is_initialized()
    }
}

/// The quality of reconstructions, in decibels.
#[derive(Clone, Copy, Debug, PartialEq, Eq, Structural)]
pub struct AutoGazePsnrStats {
    pub metric: AutoGazeEmaMetric,
}

impl Default for AutoGazePsnrStats {
    fn default() -> (r: AutoGazePsnrStats)
        ensures
            r.metric == AutoGazeEmaMetric::fresh(double(DEFAULT_METRIC_EMA_ALPHA_BITS)),
    {
        AutoGazePsnrStats { metric: AutoGazeEmaMetric::default() }
    }
}

impl AutoGazePsnrStats {
    /// Samples that are neither finite nor the positive infinity are dropped.
    pub fn record(&mut self, psnr_db: Binary64)
        ensures
            final(self).metric == (if psnr_db.finite() || psnr_db.bits == INFINITY_BITS {
                old(self).metric.recorded(psnr_db)
            } else {
                old(self).metric
            }),
    {
        if psnr_db.is_finite() || psnr_db.to_bits() == INFINITY_BITS {
            self.metric.record(psnr_db);
        }
    }

    pub fn current(&self) -> (r: Binary64)
        ensures
            r == self.metric.current,
    {
        self.metric.current()
    }

    pub fn ema(&self) -> (r: Binary64)
        ensures
            r == self.metric.ema,
    {
        self.metric.ema()
    }

    pub fn is_initialized(&self) -> (r: bool)
        ensures
            r == self.metric.initialized,
    {
        self.metric.is_initialized()
    }
}

/// `rate` times `ms` is one thousand, up to rounding.
pub open spec fn is_thousandth_of_rate(ms: Binary64, rate: Binary64) -> bool {
    let exact = 1000 * Binary64::one_value() * Binary64::one_value();
    let off = abs_nat(rate.value() * ms.value() - exact);
    2 * off <= ms.value() || 0x20_0000_0000_0000 * off <= exact
}

proof fn lemma_rate(ms: Binary64)
    requires
        ms.finite(),
        ms.value() > 0,
    ensures
        double(ZERO_DOUBLE_BITS).lt(ms),
        double(THOUSAND_BITS).over(ms).finite() ==> is_thousandth_of_rate(
            ms,
            double(THOUSAND_BITS).over(ms),
        ),
{
    lemma_unit_doubles();
    lemma_double_ordered(double(ZERO_DOUBLE_BITS), ms);
    let f = Binary64::format();
    f.lemma_constants();
    assert(f.significand(0x408f_4000_0000_0000) == 0x1f_4000_0000_0000);
    assert(f.shift(0x408f_4000_0000_0000) == 1031);
    lemma_pow2_adds(43, 1031);
    lemma2_to64();
    lemma2_to64_rest();
    let (p, one) = (pow2(1031) as int, pow2(1074) as int);
    assert(0x1f_4000_0000_0000 * p == 1000 * one) by (nonlinear_arith)
        requires
            one == 0x800_0000_0000 * p,
    ;
    assert(double(THOUSAND_BITS).value() == 1000 * one);
    if double(THOUSAND_BITS).over(ms).finite() {
        lemma_double_over_near(double(THOUSAND_BITS), ms);
        assert((1000 * one) * one >= 0) by (nonlinear_arith)
            requires
                one > 0,
        ;
    }
}

/// Frames a second from milliseconds a frame; zero where the time is not positive.
pub fn fps_from_millis(ms: Binary64) -> (r: Binary64)
    ensures
        r == (if double(ZERO_DOUBLE_BITS).lt(ms) {
            double(THOUSAND_BITS).over(ms)
        } else {
            double(ZERO_DOUBLE_BITS)
        }),
        ms.finite() && ms.value() > 0 && r.finite() ==> is_thousandth_of_rate(ms, r),
{
    proof {
        if ms.finite() && ms.value() > 0 {
            lemma_rate(ms);
        }
    }
    if double(ZERO_DOUBLE_BITS).lt(ms) {
        double(THOUSAND_BITS).over(ms)
    } else {
        double(ZERO_DOUBLE_BITS)
    }
}

/// A share in percent, with one digit behind the point; dashes where it is not finite.
pub fn format_gaze_ratio_percent(value: Binary64) -> (r: String)
    ensures
        r@ == (if value.finite() {
            fixed_text(sane_ratio(value).times(double(HUNDRED_BITS))) + "%"@
        } else {
            "--.-%"@
        }),
{
    if value.is_finite() {
        let mut out: String = String::new();
        append_fixed(&mut out, sanitize_gaze_ratio(value).times(double(HUNDRED_BITS)));
        out.append("%");
        assert(out@ =~= fixed_text(sane_ratio(value).times(double(HUNDRED_BITS))) + "%"@);
        out
    } else {
        "--.-%".to_owned()
    }
}

/// A quality in decibels, with one digit behind the point; dashes where there is none.
pub fn format_psnr_db(value: Binary64) -> (r: String)
    ensures
        r@ == (if value.bits == INFINITY_BITS {
            "inf"@
        } else if value.finite() {
            fixed_text(value)
        } else {
            "--.-"@
        }),
{
    if value.to_bits() == INFINITY_BITS {
        "inf".to_owned()
    } else if value.is_finite() {
        let mut out: String = String::new();
        append_fixed(&mut out, value);
        assert(out@ =~= fixed_text(value));
        out
    } else {
        "--.-".to_owned()
    }
}

/// An infinite sample does not spoil the average for good: the next finite sample replaces it.
pub proof fn lemma_average_recovers(metric: AutoGazeEmaMetric, sample: Binary64, next: Binary64)
    requires
        !sample.finite(),
        next.finite(),
    ensures
        metric.recorded(sample).recorded(next).ema == next,
{
}

pub(crate) proof fn lemma_unit_doubles()
    ensures
        double(ZERO_DOUBLE_BITS).finite(),
        double(ZERO_DOUBLE_BITS).value() == 0,
        double(ONE_DOUBLE_BITS).finite(),
        double(ONE_DOUBLE_BITS).value() == Binary64::one_value(),
        Binary64::one_value() > 0,
{
    let f = Binary64::format();
    f.lemma_constants();
    assert(0 * pow2(0) == 0) by (nonlinear_arith);
    lemma_pow2_pos(1074);
    lemma_pow2_adds(52, 1022);
    lemma2_to64();
    lemma2_to64_rest();
    assert(f.significand(0x3ff0_0000_0000_0000) == 0x10_0000_0000_0000);
    assert(f.shift(0x3ff0_0000_0000_0000) == 1022);
}

/// A number times a share of one is no larger than the number, and as large a part of it as the
/// share says, up to rounding.
proof fn lemma_part_of(a: Binary64, share: Binary64)
    requires
        a.finite(),
        share.finite(),
        0 <= share.value() <= Binary64::one_value(),
    ensures
        ({
            let r = a.times(share);
            let one = Binary64::one_value();
            let off = abs_nat(r.value() * one - a.value() * share.value());
            &&& r.finite()
            &&& abs_nat(r.value()) <= abs_nat(a.value())
            &&& 0x20_0000_0000_0000 * (2 * off) <= 0x20_0000_0000_0000 * one + 2 * (abs_nat(
                a.value(),
            ) * one)
            &&& share.value() == one ==> r.value() == a.value()
            &&& share.value() == 0 ==> r.value() == 0
        }),
{
    lemma_unit_doubles();
    let one = Binary64::one_value() as int;
    let (v, s) = (a.value(), share.value());
    let size = abs_nat(v) as int;
    let zero = double(ZERO_DOUBLE_BITS);
    assert(0 * one == 0) by (nonlinear_arith);
    if v >= 0 {
        assert(0 <= v * s <= v * one) by (nonlinear_arith)
            requires
                v >= 0,
                0 <= s <= one,
        ;
        lemma_double_times_between(a, share, zero, a);
    } else {
        assert(v * one <= v * s <= 0) by (nonlinear_arith)
            requires
                v < 0,
                0 <= s <= one,
        ;
        lemma_double_times_between(a, share, a, zero);
    }
    if s == one {
        lemma_double_times_between(a, share, a, a);
    }
    if s == 0 {
        assert(v * 0 == 0) by (nonlinear_arith);
        lemma_double_times_between(a, share, zero, zero);
    }
    lemma_double_times_near(a, share);
    assert(abs_nat(v * s) <= size * one) by (nonlinear_arith)
        requires
            -size <= v <= size,
            0 <= s <= one,
            size == abs_nat(v),
    ;
}

/// The average after a sample is the old one and the sample, weighted by what the weight leaves and
/// by the weight, up to rounding. Without weight the sample changes nothing, and with all of it the
/// sample is the average.
#[verifier::rlimit(40)]
pub proof fn lemma_average_weighs(previous: Binary64, current: Binary64, alpha: Binary64)
    requires
        previous.finite(),
        current.finite(),
        alpha.finite(),
        averaged(previous, current, alpha).finite(),
    ensures
        ({
            let one = Binary64::one_value();
            let (p, c) = (previous.value(), current.value());
            let w = if alpha.value() <= 0 {
                0
            } else if alpha.value() >= one {
                one as int
            } else {
                alpha.value()
            };
            let r = averaged(previous, current, alpha).value();
            &&& 0x8_0000_0000_0000 * abs_nat(r * one - (p * (one - w) + c * w)) <= (abs_nat(p)
                + abs_nat(c)) * one + 0x8_0000_0000_0000 * one
            &&& w == 0 ==> r == p
            &&& w == one ==> r == c
        }),
{
    lemma_unit_doubles();
    let one = Binary64::one_value() as int;
    lemma_weight(alpha);
    let share = weight(alpha);
    let w = share.value();
    lemma_rest_of(share);
    let rest = double(ONE_DOUBLE_BITS).minus(share);
    lemma_part_of(previous, rest);
    lemma_part_of(current, share);
    let (a, b) = (previous.times(rest), current.times(share));
    lemma_double_plus_near(a, b);
    if w == 0 {
        lemma_double_plus_between(a, b, previous, previous);
    }
    if w == one {
        lemma_double_plus_between(a, b, current, current);
    }
    lemma_weighed_off(
        a.plus(b).value(),
        a.value(),
        b.value(),
        previous.value(),
        current.value(),
        rest.value(),
        w,
        one,
    );
}

proof fn lemma_weight(alpha: Binary64)
    requires
        alpha.finite(),
    ensures
        weight(alpha).finite(),
        ({
            let one = Binary64::one_value();
            weight(alpha).value() == if alpha.value() <= 0 {
                0
            } else if alpha.value() >= one {
                one as int
            } else {
                alpha.value()
            }
        }),
{
    lemma_unit_doubles();
    lemma_double_ordered(alpha, double(ZERO_DOUBLE_BITS));
    lemma_double_ordered(double(ONE_DOUBLE_BITS), alpha);
}

/// What a share leaves of one.
proof fn lemma_rest_of(share: Binary64)
    requires
        share.finite(),
        0 <= share.value() <= Binary64::one_value(),
    ensures
        ({
            let one = Binary64::one_value();
            let rest = double(ONE_DOUBLE_BITS).minus(share);
            let w = share.value();
            &&& rest.finite()
            &&& 0 <= rest.value() <= one
            &&& 0x20_0000_0000_0000 * abs_nat(rest.value() - (one - w)) <= one - w
            &&& w == 0 ==> rest.value() == one
            &&& w == one ==> rest.value() == 0
        }),
{
    lemma_unit_doubles();
    let one = Binary64::one_value() as int;
    let (zero, unit) = (double(ZERO_DOUBLE_BITS), double(ONE_DOUBLE_BITS));
    let minus = share.negated();
    assert(minus.finite() && minus.value() == -share.value());
    lemma_double_plus_between(unit, minus, zero, unit);
    lemma_double_plus_near(unit, minus);
    if share.value() == 0 {
        lemma_double_plus_between(unit, minus, unit, unit);
    }
    if share.value() == one {
        lemma_double_plus_between(unit, minus, zero, zero);
    }
}

/// What is off in the parts of an average.
#[verifier::rlimit(40)]
proof fn lemma_weighed_off(r: int, a: int, b: int, p: int, c: int, k: int, w: int, one: int)
    requires
        one > 0,
        0 <= w <= one,
        0x20_0000_0000_0000 * abs_nat(k - (one - w)) <= one - w,
        abs_nat(a) <= abs_nat(p),
        abs_nat(b) <= abs_nat(c),
        0x20_0000_0000_0000 * (2 * abs_nat(a * one - p * k)) <= 0x20_0000_0000_0000 * one + 2 * (
        abs_nat(p) * one),
        0x20_0000_0000_0000 * (2 * abs_nat(b * one - c * w)) <= 0x20_0000_0000_0000 * one + 2 * (
        abs_nat(c) * one),
        0x20_0000_0000_0000 * abs_nat(r - (a + b)) <= abs_nat(a + b),
    ensures
        0x8_0000_0000_0000 * abs_nat(r * one - (p * (one - w) + c * w)) <= (abs_nat(p) + abs_nat(
            c,
        )) * one + 0x8_0000_0000_0000 * one,
{
    let m = 0x20_0000_0000_0000int;
    let (x, y) = (abs_nat(p) as int, abs_nat(c) as int);
    let (u, v) = (a * one - p * k, b * one - c * w);
    let d = k - (one - w);
    let e = r - (a + b);
    assert(r * one - (p * (one - w) + c * w) == e * one + u + v + p * d) by (nonlinear_arith)
        requires
            u == a * one - p * k,
            v == b * one - c * w,
            d == k - (one - w),
            e == r - (a + b),
    ;
    assert(-(x * one) <= m * (p * d) <= x * one) by (nonlinear_arith)
        requires
            -x <= p <= x,
            -one <= m * d <= one,
            x == abs_nat(p),
            one > 0,
            m > 0,
    {
        let f = m * d;
        assert(m * (p * d) == p * f);
        assert(-(x * one) <= p * f <= x * one) by (nonlinear_arith)
            requires
                -x <= p <= x,
                -one <= f <= one,
                x >= 0,
                one > 0,
        ;
    }
    assert(-((x + y) * one) <= m * (e * one) <= (x + y) * one) by (nonlinear_arith)
        requires
            -(x + y) <= m * e <= x + y,
            one > 0,
    {
        assert(m * (e * one) == (m * e) * one);
    }
    assert((x + y) * one == x * one + y * one) by (nonlinear_arith);
}

/// The share of a frame that is reported lies between none and all of it, and a share that does is
/// reported as it is.
pub proof fn lemma_ratio_in_unit(ratio: Binary64)
    ensures
        sane_ratio(ratio).finite(),
        0 <= sane_ratio(ratio).value() <= Binary64::one_value(),
        ratio.finite() && 0 <= ratio.value() <= Binary64::one_value() ==> sane_ratio(ratio)
            == ratio,
        ratio.finite() && ratio.value() > Binary64::one_value() ==> sane_ratio(ratio).value()
            == Binary64::one_value(),
        !ratio.finite() ==> sane_ratio(ratio).value() == 0,
{
    lemma_unit_doubles();
    if ratio.finite() {
        lemma_double_ordered(ratio, double(ZERO_DOUBLE_BITS));
        lemma_double_ordered(double(ONE_DOUBLE_BITS), ratio);
    }
}

} // verus!
