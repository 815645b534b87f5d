//! Small integer helpers.
use vstd::prelude::*;

verus! {

pub open spec fn min_int(a: int, b: int) -> int {
    if a <= b {
        a
    } else {
        b
    }
}

pub open spec fn max_int(a: int, b: int) -> int {
    if a >= b {
        a
    } else {
        b
    }
}

/// A natural number cut at the largest `usize`.
pub open spec fn capped(n: nat) -> usize {
    if n <= usize::MAX {
        n as usize
    } else {
        usize::MAX
    }
}

/// The smallest natural number whose `d`-fold is not below `n`.
pub open spec fn ceil_quotient(n: nat, d: nat) -> nat {
    if n % d == 0 {
        n / d
    } else {
        n / d + 1
    }
}

pub fn min_usize(a: usize, b: usize) -> (r: usize)
    ensures
        r == min_int(a as int, b as int),
{
    if a <= b {
        a
    } else {
        b
    }
}

pub fn max_usize(a: usize, b: usize) -> (r: usize)
    ensures
        r == max_int(a as int, b as int),
{
    if a >= b {
        a
    } else {
        b
    }
}

/// Multiplies, stopping at the largest `usize`.
pub fn saturating_times(a: usize, b: usize) -> (r: usize)
    ensures
        r == capped((a * b) as nat),
{
    match a.checked_mul(b) {
        Some(v) => v,
        None => {
            assert(a * b >= 0) by (nonlinear_arith)
                requires
                    a >= 0,
                    b >= 0,
            ;
            usize::MAX
        },
    }
}

/// Divides, rounding up.
pub fn div_ceil(n: usize, d: usize) -> (r: usize)
    requires
        d > 0,
    ensures
        r == ceil_quotient(n as nat, d as nat),
{
    if n % d == 0 {
        n / d
    } else {
        proof {
            vstd::arithmetic::div_mod::lemma_fundamental_div_mod(n as int, d as int);
            assert(n / d < n) by (nonlinear_arith)
                requires
                    n == d * (n / d) + n % d,
                    n % d > 0,
                    d > 0,
            ;
        }
        n / d + 1
    }
}

/// `ceil_quotient` is the least multiple count that reaches `n`.
pub proof fn lemma_ceil_quotient(n: nat, d: nat)
    requires
        d > 0,
    ensures
        ceil_quotient(n, d) * d >= n,
        forall|k: nat| #[trigger] (k * d) >= n ==> k >= ceil_quotient(n, d),
{
    let q = n / d;
    vstd::arithmetic::div_mod::lemma_fundamental_div_mod(n as int, d as int);
    assert(q * d <= n < (q + 1) * d) by (nonlinear_arith)
        requires
            n == d * q + n % d,
            0 <= n % d < d,
    ;
    assert(d * q == q * d) by (nonlinear_arith);
    assert forall|k: nat| #[trigger] (k * d) >= n implies k >= ceil_quotient(n, d) by {
        if k < ceil_quotient(n, d) {
            if k <= q {
                assert(k * d <= q * d) by (nonlinear_arith)
                    requires
                        k <= q,
                ;
                if n % d == 0 {
                    assert(k * d <= (q - 1) * d) by (nonlinear_arith)
                        requires
                            k <= q - 1,
                    ;
                    assert((q - 1) * d == q * d - d) by (nonlinear_arith);
                }
            }
            assert(false);
        }
    }
}

/// The greatest common divisor by repeated remainders, at least one.
pub open spec fn euclid(left: nat, right: nat) -> nat
    decreases right,
{
    if right == 0 {
        if left == 0 {
            1
        } else {
            left
        }
    } else {
        euclid(right, left % right)
    }
}

/// `d` divides `n`.
pub open spec fn divides(d: nat, n: nat) -> bool {
    n % d == 0
}

proof fn lemma_divides_combination(d: nat, a: nat, b: nat, q: nat)
    requires
        d > 0,
        divides(d, a),
        divides(d, b),
    ensures
        divides(d, a * q + b),
        a * q >= b ==> divides(d, (a * q - b) as nat),
{
    let x = a / d;
    let y = b / d;
    vstd::arithmetic::div_mod::lemma_fundamental_div_mod(a as int, d as int);
    vstd::arithmetic::div_mod::lemma_fundamental_div_mod(b as int, d as int);
    assert(a * q + b == (x * q + y) * d + 0) by (nonlinear_arith)
        requires
            a == d * x,
            b == d * y,
    ;
    vstd::arithmetic::div_mod::lemma_fundamental_div_mod_converse(
        (a * q + b) as int,
        d as int,
        (x * q + y) as int,
        0,
    );
    if a * q >= b {
        assert(a * q - b == (x * q - y) * d + 0) by (nonlinear_arith)
            requires
                a == d * x,
                b == d * y,
        ;
        vstd::arithmetic::div_mod::lemma_fundamental_div_mod_converse(
            (a * q - b) as int,
            d as int,
            (x * q - y) as int,
            0,
        );
    }
}

/// The greatest common divisor divides both numbers, and every common divisor divides it.
pub proof fn lemma_euclid(left: nat, right: nat)
    ensures
        euclid(left, right) > 0,
        divides(euclid(left, right), left),
        divides(euclid(left, right), right),
        left > 0 || right > 0 ==> forall|d: nat|
            d > 0 && divides(d, left) && divides(d, right) ==> #[trigger] divides(
                d,
                euclid(left, right),
            ),
    decreases right,
{
    if right == 0 {
        if left > 0 {
            assert(left % left == 0) by {
                vstd::arithmetic::div_mod::lemma_mod_self_0(left as int);
            }
            vstd::arithmetic::div_mod::lemma_small_mod(0, left);
        }
    } else {
        let r = left % right;
        let q = left / right;
        lemma_euclid(right, r);
        let g = euclid(right, r);
        vstd::arithmetic::div_mod::lemma_fundamental_div_mod(left as int, right as int);
        lemma_divides_combination(g, right, r, q);
        assert(left == right * q + r);
        assert forall|d: nat| d > 0 && divides(d, left) && divides(d, right) implies divides(
            d,
            #[trigger] euclid(left, right),
        ) by {
            lemma_divides_remainder(d, left, right);
            assert(divides(d, g));
        }
    }
}

proof fn lemma_divides_remainder(d: nat, left: nat, right: nat)
    requires
        d > 0,
        right > 0,
        divides(d, left),
        divides(d, right),
    ensures
        divides(d, left % right),
{
    let x = left / d;
    let y = right / d;
    let q = left / right;
    vstd::arithmetic::div_mod::lemma_fundamental_div_mod(left as int, right as int);
    vstd::arithmetic::div_mod::lemma_fundamental_div_mod(left as int, d as int);
    vstd::arithmetic::div_mod::lemma_fundamental_div_mod(right as int, d as int);
    let r = left % right;
    assert(r == (x - y * q) * d + 0) by (nonlinear_arith)
        requires
            left == right * q + r,
            left == d * x,
            right == d * y,
    ;
    vstd::arithmetic::div_mod::lemma_fundamental_div_mod_converse(
        r as int,
        d as int,
        x - y * q,
        0,
    );
}

/// The greatest common divisor, at least one.
pub fn gcd(left: usize, right: usize) -> (r: usize)
    ensures
        r == euclid(left as nat, right as nat),
        r > 0,
{
    let mut a: usize = left;
    let mut b: usize = right;
    while b != 0
        invariant
            euclid(a as nat, b as nat) == euclid(left as nat, right as nat),
        decreases b,
    {
        let remainder: usize = a % b;
        a = b;
        b = remainder;
    }
    if a == 0 {
        1
    } else {
        a
    }
}

/// The least common multiple where it does not exceed `max_value`. Zero counts as one.
pub open spec fn bounded_common_multiple(left: nat, right: nat, max_value: nat) -> Option<nat> {
    let l = if left == 0 {
        1
    } else {
        left
    };
    let r = if right == 0 {
        1
    } else {
        right
    };
    let m = (left / euclid(l, r)) * r;
    if m <= max_value {
        Some(m)
    } else {
        None
    }
}

/// The least common multiple where it does not exceed `max_value`.
pub fn bounded_lcm(left: usize, right: usize, max_value: usize) -> (r: Option<usize>)
    ensures
        match bounded_common_multiple(left as nat, right as nat, max_value as nat) {
            Some(m) => r == Some(m as usize) && m <= max_value,
            None => r is None,
        },
{
    let l: usize = max_usize(left, 1);
    let r: usize = max_usize(right, 1);
    let g: usize = gcd(l, r);
    match (left / g).checked_mul(r) {
        Some(m) => if m <= max_value {
            Some(m)
        } else {
            None
        },
        None => None,
    }
}

/// What is found is the least common multiple: both numbers divide it, and every common multiple is
/// at least as large. Nothing is found exactly where it exceeds the bound.
#[verifier::rlimit(40)]
pub proof fn lemma_least_common_multiple(left: nat, right: nat, max_value: nat, h: nat)
    requires
        left > 0,
        right > 0,
        h > 0,
        divides(left, h),
        divides(right, h),
    ensures
        bounded_common_multiple(left, right, max_value) matches Some(m) ==> 0 < m <= h && m
            <= max_value && divides(left, m) && divides(right, m),
        h <= max_value ==> bounded_common_multiple(left, right, max_value) is Some,
{
    let e = euclid(left, right);
    lemma_euclid(left, right);
    let product = left * right;
    assert(product > 0) by (nonlinear_arith)
        requires
            product == left * right,
            left > 0,
            right > 0,
    ;
    let c = euclid(h, product);
    lemma_euclid(h, product);
    lemma_multiple(left, right);
    assert(right * left == product) by (nonlinear_arith)
        requires
            product == left * right,
    ;
    lemma_multiple(right, left);
    assert(divides(left, c));
    assert(divides(right, c));
    let (a, b) = (c / left, c / right);
    let q = product / c;
    let s = h / c;
    vstd::arithmetic::div_mod::lemma_fundamental_div_mod(c as int, left as int);
    vstd::arithmetic::div_mod::lemma_fundamental_div_mod(c as int, right as int);
    vstd::arithmetic::div_mod::lemma_fundamental_div_mod(product as int, c as int);
    vstd::arithmetic::div_mod::lemma_fundamental_div_mod(h as int, c as int);
    assert(right == q * a) by (nonlinear_arith)
        requires
            left * right == c * q,
            c == left * a,
            left > 0,
    {
        assert(left * right == left * (q * a));
    }
    assert(left == q * b) by (nonlinear_arith)
        requires
            left * right == c * q,
            c == right * b,
            right > 0,
    {
        assert(right * left == right * (q * b));
    }
    assert(q > 0) by (nonlinear_arith)
        requires
            right == q * a,
            right > 0,
    ;
    lemma_multiple(q, a);
    lemma_multiple(q, b);
    assert(divides(q, e));
    let k = e / q;
    vstd::arithmetic::div_mod::lemma_fundamental_div_mod(e as int, q as int);
    let x = left / e;
    let y = right / e;
    vstd::arithmetic::div_mod::lemma_fundamental_div_mod(left as int, e as int);
    vstd::arithmetic::div_mod::lemma_fundamental_div_mod(right as int, e as int);
    let m = x * right;
    assert(m * e == c * q) by (nonlinear_arith)
        requires
            m == x * right,
            left == e * x,
            left * right == c * q,
    ;
    assert(q <= e) by (nonlinear_arith)
        requires
            e == q * k,
            e > 0,
    ;
    assert(m <= c) by (nonlinear_arith)
        requires
            m * e == c * q,
            0 < q <= e,
    ;
    assert(c <= h) by (nonlinear_arith)
        requires
            h == c * s,
            h > 0,
    ;
    assert(x > 0) by (nonlinear_arith)
        requires
            left == e * x,
            left > 0,
    ;
    assert(m > 0) by (nonlinear_arith)
        requires
            m == x * right,
            x > 0,
            right > 0,
    ;
    assert(m == left * y) by (nonlinear_arith)
        requires
            m == x * right,
            left == e * x,
            right == e * y,
    ;
    lemma_multiple(left, y);
    assert(right * x == m) by (nonlinear_arith)
        requires
            m == x * right,
    ;
    lemma_multiple(right, x);
}

proof fn lemma_multiple(d: nat, k: nat)
    requires
        d > 0,
    ensures
        divides(d, d * k),
{
    assert(d * k == k * d + 0) by (nonlinear_arith);
    vstd::arithmetic::div_mod::lemma_fundamental_div_mod_converse(
        (d * k) as int,
        d as int,
        k as int,
        0,
    );
}

} // verus!
