//! Square roots of counts in double precision.
//!
//! A count is rounded to the nearest double, the root of that is rounded to the nearest double, and
//! the result to the nearest whole number. Up to fifty-two bits or so this is the whole number
//! nearest to the root; beyond, each rounding can show.
use crate::arith::max_int;
use crate::rounding::{excess_bits, nearest_even};
use vstd::arithmetic::power2::{lemma2_to64, lemma_pow2_adds, lemma_pow2_pos, lemma_pow2_unfold, pow2};
use vstd::prelude::*;

verus! {

/// The significant bits of a double.
pub const DOUBLE_BITS: u64 = 53;

/// `r` is the whole number nearest to the square root of `n`.
pub open spec fn is_nearest_root(n: nat, r: nat) -> bool {
    &&& r >= 1
    &&& r * r - r < n
    &&& n <= r * r + r
}

/// The whole number nearest to the square root of `n`.
pub open spec fn nearest_root(n: nat) -> nat {
    choose|r: nat| is_nearest_root(n, r)
}

/// The double nearest to a count.
pub open spec fn double_count(n: nat) -> nat {
    let s = excess_bits(n, DOUBLE_BITS as nat);
    nearest_even(n, pow2(s)) * pow2(s)
}

/// How often a number has to be quadrupled until its root has all bits of a double in front of the
/// point.
pub open spec fn root_scale(m: nat) -> nat
    decreases
            if m < pow2(104) {
                pow2(104) - m
            } else {
                0
            },
{
    if m == 0 || m >= pow2(104) {
        0
    } else {
        1 + root_scale(4 * m)
    }
}

/// The root of a whole double `m`, rounded to the nearest double, in units of one part in
/// `pow2(root_scale(m))`. No root lies half way between two doubles.
pub open spec fn double_root(m: nat) -> nat {
    nearest_root(m * pow2(2 * root_scale(m)))
}

/// The whole number nearest to the root of a count, in double precision; at least one.
pub open spec fn rounded_root(n: nat) -> nat {
    let m = double_count(n);
    let unit = pow2(root_scale(m));
    max_int((2 * double_root(m) + unit) as int / (2 * unit) as int, 1) as nat
}

/// There is one nearest root.
pub proof fn lemma_nearest_root(n: nat, r: nat)
    requires
        is_nearest_root(n, r),
    ensures
        nearest_root(n) == r,
{
    let s = nearest_root(n);
    assert(is_nearest_root(n, s));
    if s < r {
        assert(s * s + s <= r * r - r) by (nonlinear_arith)
            requires
                s + 1 <= r,
        ;
    } else if r < s {
        assert(r * r + r <= s * s - s) by (nonlinear_arith)
            requires
                r + 1 <= s,
        ;
    }
}

proof fn lemma_powers()
    ensures
        pow2(0) == 1,
        pow2(53) == 0x20_0000_0000_0000,
        pow2(104) == 0x100_0000_0000_0000_0000_0000_0000nat,
{
    lemma2_to64();
    lemma_pow2_adds(52, 52);
    lemma_pow2_adds(52, 1);
    lemma_pow2_adds(32, 20);
    assert(pow2(52) == 0x10_0000_0000_0000) by (nonlinear_arith)
        requires
            pow2(52) == pow2(32) * pow2(20),
            pow2(32) == 0x1_0000_0000,
            pow2(20) == 0x10_0000,
    ;
    assert(pow2(104) == 0x100_0000_0000_0000_0000_0000_0000nat) by (nonlinear_arith)
        requires
            pow2(104) == pow2(52) * pow2(52),
            pow2(52) == 0x10_0000_0000_0000,
    ;
}

/// Rounds a count to the nearest double.
fn count_to_double(n: usize) -> (r: u128)
    requires
        n > 0,
    ensures
        r == double_count(n as nat),
        0 < r <= 0x1_0000_0000_0000_0000,
        n < 0x20_0000_0000_0000 ==> r == n,
{
    let mut q: u64 = n as u64;
    let mut unit: u64 = 1;
    let ghost mut s: nat = 0;
    proof {
        lemma_powers();
    }
    while q >= 0x20_0000_0000_0000
        invariant
            pow2(53) == 0x20_0000_0000_0000,
            q == n as nat / pow2(s),
            unit == pow2(s),
            unit >= 1,
            q * unit <= n,
            n < q * unit + unit,
            n > 0,
            q >= 1,
            s <= 11,
            s == 0 ==> q == n && unit == 1,
            s > 0 ==> n >= 0x20_0000_0000_0000,
            excess_bits(n as nat, 53) == s + excess_bits(q as nat, 53),
        decreases q,
    {
        assert(unit < 0x800) by (nonlinear_arith)
            requires
                q * unit <= n,
                n <= 0xffff_ffff_ffff_ffff,
                q >= 0x20_0000_0000_0000,
        ;
        proof {
            lemma2_to64();
            if s >= 11 {
                assert(pow2(s) == pow2(11));
            }
            lemma_pow2_unfold(s + 1);
            lemma_pow2_pos(s);
            vstd::arithmetic::div_mod::lemma_div_denominator(n as int, pow2(s) as int, 2);
            assert(pow2(s) * 2 == pow2(s + 1)) by (nonlinear_arith)
                requires
                    pow2(s + 1) == 2 * pow2(s),
            ;
            let half = q / 2;
            assert(half * (2 * unit) <= n && n < half * (2 * unit) + 2 * unit)
                by (nonlinear_arith)
                requires
                    q * unit <= n,
                    n < q * unit + unit,
                    half * 2 <= q <= half * 2 + 1,
                    unit >= 1,
            ;
            s = s + 1;
        }
        q = q / 2;
        unit = unit * 2;
    }
    proof {
        assert(excess_bits(q as nat, 53) == 0);
        lemma_pow2_pos(s);
        vstd::arithmetic::div_mod::lemma_fundamental_div_mod(n as int, unit as int);
        assert(unit as int * q as int == q * unit) by (nonlinear_arith);
        assert(q * unit <= 0xffff_ffff_ffff_ffff);
    }
    let rest: u64 = n as u64 - q * unit;
    assert(rest == n as nat % pow2(s));
    let up: bool = !(2 * (rest as u128) < unit as u128 || (2 * (rest as u128) == unit as u128 && q
        % 2 == 0));
    let rounded: u64 = if up {
        q + 1
    } else {
        q
    };
    proof {
        assert(rounded == nearest_even(n as nat, pow2(s)));
        assert(rounded <= 0x20_0000_0000_0000);
        lemma2_to64();
        if s < 11 {
            vstd::arithmetic::power2::lemma_pow2_strictly_increases(s, 11);
        }
        assert(unit <= 0x800);
        assert(rounded * unit <= 0x1_0000_0000_0000_0000) by (nonlinear_arith)
            requires
                0 <= rounded <= 0x20_0000_0000_0000,
                0 <= unit <= 0x800,
        ;
        assert(rounded * unit > 0) by (nonlinear_arith)
            requires
                rounded >= 1,
                unit >= 1,
        ;
    }
    (rounded as u128) * (unit as u128)
}

/// A rounded root is no larger than its square, and stays below half of what it is counted in.
proof fn lemma_root_bounds(m: nat, unit: nat, k: nat)
    requires
        m >= 1,
        unit >= 2,
        k >= 1,
        k * k - k < m * unit * unit,
    ensures
        (2 * k + unit) / (2 * unit) <= m,
        (2 * k + unit) / (2 * unit) <= k,
{
    assert(k <= m * unit) by (nonlinear_arith)
        requires
            m >= 1,
            unit >= 2,
            k * k - k < m * unit * unit,
    ;
    let side = (2 * k + unit) / (2 * unit);
    vstd::arithmetic::div_mod::lemma_fundamental_div_mod((2 * k + unit) as int, (2 * unit) as int);
    assert(side <= m) by (nonlinear_arith)
        requires
            (2 * unit) * side <= 2 * k + unit,
            k <= m * unit,
            unit >= 2,
    ;
    assert(side <= k) by (nonlinear_arith)
        requires
            (2 * unit) * side <= 2 * k + unit,
            k >= 1,
            unit >= 2,
    ;
}

/// The whole number nearest to the root of a count, as double precision gives it; at least one.
pub fn root_of_count(n: usize) -> (r: usize)
    requires
        n > 0,
    ensures
        r == rounded_root(n as nat),
        r >= 1,
{
    let m: u128 = count_to_double(n);
    let mut scaled: u128 = m;
    let mut unit: u128 = 1;
    let ghost mut t: nat = 0;
    proof {
        lemma_powers();
        assert(m * pow2(2 * 0) == m) by (nonlinear_arith)
            requires
                pow2(0) == 1,
        ;
    }
    while scaled < 0x100_0000_0000_0000_0000_0000_0000u128
        invariant
            m > 0,
            pow2(104) == 0x100_0000_0000_0000_0000_0000_0000nat,
            scaled == m * pow2(2 * t),
            unit == pow2(t),
            1 <= unit,
            scaled == m * unit * unit,
            scaled < 0x400_0000_0000_0000_0000_0000_0000u128,
            root_scale(m as nat) == t + root_scale(scaled as nat),
        decreases 0x400_0000_0000_0000_0000_0000_0000u128 - scaled,
    {
        assert(unit <= 0x10_0000_0000_0000) by (nonlinear_arith)
            requires
                m >= 1,
                unit >= 1,
                m * unit * unit == scaled,
                scaled < 0x100_0000_0000_0000_0000_0000_0000u128,
        ;
        assert(scaled > 0) by (nonlinear_arith)
            requires
                m >= 1,
                unit >= 1,
                m * unit * unit == scaled,
        ;
        proof {
            lemma_pow2_unfold(t + 1);
            lemma_pow2_adds(2 * t, 2);
            lemma2_to64();
            assert(m * pow2(2 * (t + 1)) == 4 * (m * pow2(2 * t))) by (nonlinear_arith)
                requires
                    pow2(2 * (t + 1)) == pow2(2 * t) * 4,
            ;
            assert(m * (2 * unit) * (2 * unit) == 4 * (m * unit * unit)) by (nonlinear_arith);
            t = t + 1;
        }
        scaled = scaled * 4;
        unit = unit * 2;
    }
    assert(root_scale(m as nat) == t);
    let mut lo: u64 = 1;
    let mut hi: u64 = 0x20_0000_0000_0000;
    assert(0x20_0000_0000_0000 * 0x20_0000_0000_0000
        >= 0x400_0000_0000_0000_0000_0000_0000u128) by (nonlinear_arith);
    assert(hi * hi + hi >= scaled);
    while lo < hi
        invariant
            1 <= lo <= hi <= 0x20_0000_0000_0000,
            lo * lo - lo < scaled,
            scaled <= hi * hi + hi,
        decreases hi - lo,
    {
        let mid: u64 = lo + (hi - lo) / 2;
        assert(mid * mid + mid <= 0x20_0000_0000_0000 * 0x20_0000_0000_0000
            + 0x20_0000_0000_0000) by (nonlinear_arith)
            requires
                0 <= mid <= 0x20_0000_0000_0000,
        ;
        let k: u128 = mid as u128;
        if k * k + k >= scaled {
            hi = mid;
        } else {
            assert((mid + 1) * (mid + 1) - (mid + 1) == mid * mid + mid) by (nonlinear_arith);
            lo = mid + 1;
        }
    }
    proof {
        assert((lo as nat) * (lo as nat) == lo * lo);
        lemma_nearest_root(scaled as nat, lo as nat);
        lemma_root_bounds(m as nat, unit as nat, lo as nat);
        assert(2 * unit <= 0x80_0000_0000_0000_0000_0000) by (nonlinear_arith)
            requires
                m >= 1,
                unit >= 1,
                m * unit * unit == scaled,
                scaled < 0x400_0000_0000_0000_0000_0000_0000u128,
        ;
    }
    let side: u128 = (2 * (lo as u128) + unit) / (2 * unit);
    if side < 1 {
        1
    } else {
        side as usize
    }
}

/// The root of a square grid's count is the side of the grid.
pub proof fn lemma_square_root(side: nat)
    requires
        1 <= side,
        side * side < pow2(53),
    ensures
        rounded_root(side * side) == side,
{
    let n = side * side;
    lemma_powers();
    assert(n >= 1) by (nonlinear_arith)
        requires
            side >= 1,
            n == side * side,
    ;
    assert(excess_bits(n, 53) == 0);
    assert(double_count(n) == n) by {
        assert(n / 1 == n && n % 1 == 0);
        assert(nearest_even(n, 1) == n);
        assert(n * 1 == n);
    }
    let t = root_scale(n);
    let unit = pow2(t);
    lemma_pow2_pos(t);
    lemma_pow2_adds(t, t);
    let root = side * unit;
    assert(n * pow2(2 * t) == root * root) by (nonlinear_arith)
        requires
            pow2(2 * t) == unit * unit,
            n == side * side,
            root == side * unit,
    ;
    assert(root >= 1) by (nonlinear_arith)
        requires
            side >= 1,
            unit >= 1,
            root == side * unit,
    ;
    lemma_nearest_root(root * root, root);
    assert(2 * root + unit == side * (2 * unit) + unit) by (nonlinear_arith)
        requires
            root == side * unit,
    ;
    vstd::arithmetic::div_mod::lemma_fundamental_div_mod_converse(
        (2 * root + unit) as int,
        (2 * unit) as int,
        side as int,
        unit as int,
    );
}

/// Every number from one on has a nearest root.
proof fn lemma_has_root(n: nat) -> (r: nat)
    requires
        n >= 1,
    ensures
        is_nearest_root(n, r),
    decreases n,
{
    if n == 1 {
        assert(is_nearest_root(1, 1));
        1
    } else {
        let r = lemma_has_root((n - 1) as nat);
        if n <= r * r + r {
            r
        } else {
            let s = r + 1;
            assert(s * s - s == r * r + r && s * s + s >= r * r + r + 1) by (nonlinear_arith)
                requires
                    s == r + 1,
                    r >= 1,
            ;
            s
        }
    }
}

/// A number that is scaled for its root is large.
proof fn lemma_root_scale(m: nat)
    requires
        m > 0,
    ensures
        m * pow2(2 * root_scale(m)) >= pow2(104),
    decreases
            if m < pow2(104) {
                pow2(104) - m
            } else {
                0
            },
{
    lemma_powers();
    if m >= pow2(104) {
        assert(m * 1 == m);
    } else {
        lemma_root_scale(4 * m);
        let t = root_scale(4 * m);
        lemma_pow2_adds(2, 2 * t);
        lemma2_to64();
        let q = pow2(2 * t);
        assert(m * (4 * q) == (4 * m) * q) by (nonlinear_arith);
        assert(2 * root_scale(m) == 2 + 2 * t);
    }
}

/// The root of a count is the whole number nearest to it.
#[verifier::rlimit(40)]
pub proof fn lemma_rounded_root_nearest(n: nat)
    requires
        1 <= n < 0x2_0000_0000_0000,
    ensures
        is_nearest_root(n, rounded_root(n)),
{
    lemma_powers();
    assert(excess_bits(n, 53) == 0);
    assert(double_count(n) == n) by {
        assert(n / 1 == n && n % 1 == 0);
        assert(nearest_even(n, 1) == n);
        assert(n * 1 == n);
    }
    let t = root_scale(n);
    let u = pow2(t) as int;
    lemma_pow2_pos(t);
    lemma_pow2_adds(t, t);
    lemma_root_scale(n);
    let m = (n * pow2(2 * t)) as int;
    let k = lemma_has_root(m as nat) as int;
    lemma_nearest_root(m as nat, k as nat);
    let r = (2 * k + u) / (2 * u);
    vstd::arithmetic::div_mod::lemma_fundamental_div_mod(2 * k + u, 2 * u);
    let c = n as int;
    assert(m == c * (u * u)) by (nonlinear_arith)
        requires
            m == c * pow2(2 * t),
            pow2(2 * t) == u * u,
    ;
    assert((2 * u) * r == 2 * (r * u)) by (nonlinear_arith);
    lemma_root_from_below(c, u, k, r);
    lemma_root_from_above(c, u, k, r);
    assert(r >= 1) by (nonlinear_arith)
        requires
            c <= r * r + r,
            c >= 1,
            2 * (r * u) > 2 * k + u - 2 * u,
            k >= 1,
            u >= 1,
    ;
}

proof fn lemma_root_from_below(n: int, u: int, k: int, r: int)
    requires
        n >= 1,
        u >= 1,
        n * (u * u) <= k * k + k,
        2 * k + u < 2 * (r * u) + 2 * u,
        k >= 1,
    ensures
        n <= r * r + r,
{
    let a = (2 * r + 1) * u;
    assert(a == 2 * (r * u) + u) by (nonlinear_arith)
        requires
            a == (2 * r + 1) * u,
    ;
    assert(a >= 2 * k + 1);
    assert(a * a >= (2 * k + 1) * (2 * k + 1)) by (nonlinear_arith)
        requires
            a >= 2 * k + 1,
            k >= 1,
    ;
    assert((2 * k + 1) * (2 * k + 1) == 4 * (k * k + k) + 1) by (nonlinear_arith);
    let s = (2 * r + 1) * (2 * r + 1);
    let w = u * u;
    assert(a * a == s * w) by (nonlinear_arith)
        requires
            a == (2 * r + 1) * u,
            s == (2 * r + 1) * (2 * r + 1),
            w == u * u,
    ;
    assert(s == 4 * (r * r + r) + 1) by (nonlinear_arith)
        requires
            s == (2 * r + 1) * (2 * r + 1),
    ;
    assert(4 * (n * w) < s * w);
    assert(4 * n < s) by (nonlinear_arith)
        requires
            4 * (n * w) < s * w,
            w >= 0,
    ;
}

#[verifier::rlimit(40)]
proof fn lemma_root_from_above(n: int, u: int, k: int, r: int)
    requires
        1 <= n < 0x2_0000_0000_0000,
        u >= 1,
        k * k - k < n * (u * u),
        n * (u * u) >= 0x100_0000_0000_0000_0000_0000_0000,
        2 * (r * u) <= 2 * k + u,
        k >= 1,
    ensures
        r * r - r < n || r < 1,
{
    if r >= 1 && n <= r * r - r {
        let w = u * u;
        let b = (2 * r - 1) * u;
        assert(b == 2 * (r * u) - u && b > 0) by (nonlinear_arith)
            requires
                b == (2 * r - 1) * u,
                r >= 1,
                u >= 1,
        ;
        assert(b * b <= (2 * k) * (2 * k)) by (nonlinear_arith)
            requires
                0 < b <= 2 * k,
        ;
        let s = (2 * r - 1) * (2 * r - 1);
        assert(b * b == s * w) by (nonlinear_arith)
            requires
                b == (2 * r - 1) * u,
                s == (2 * r - 1) * (2 * r - 1),
                w == u * u,
        ;
        assert(s == 4 * (r * r - r) + 1) by (nonlinear_arith)
            requires
                s == (2 * r - 1) * (2 * r - 1),
        ;
        assert(4 * (n * w) <= s * w - w) by (nonlinear_arith)
            requires
                4 * n + 1 <= s,
                w >= 0,
        ;
        assert((2 * k) * (2 * k) == 4 * (k * k)) by (nonlinear_arith);
        assert(w + 1 <= 4 * k);
        assert(w >= 0x80_0000_0000_0000) by (nonlinear_arith)
            requires
                n * w >= 0x100_0000_0000_0000_0000_0000_0000,
                1 <= n < 0x2_0000_0000_0000,
                w >= 0,
        ;
        assert(16 * (k * k - k) >= (w + 1) * (w - 3)) by (nonlinear_arith)
            requires
                4 * k >= w + 1,
                w >= 4,
        {
            assert((4 * k) * (4 * k - 4) >= (w + 1) * (w - 3));
        }
        assert((w + 1) * (w - 3) == w * w - 2 * w - 3) by (nonlinear_arith);
        assert(w * w - 2 * w - 3 < 16 * (n * w));
        assert(w <= 16 * n + 2) by (nonlinear_arith)
            requires
                w * w - 2 * w - 3 < 16 * (n * w),
                w >= 4,
                n >= 1,
        ;
        assert(n * w <= n * (16 * n + 2)) by (nonlinear_arith)
            requires
                w <= 16 * n + 2,
                n >= 1,
        ;
        assert(n * (16 * n + 2) < 0x100_0000_0000_0000_0000_0000_0000) by (nonlinear_arith)
            requires
                1 <= n < 0x2_0000_0000_0000,
        ;
    }
}

} // verus!
