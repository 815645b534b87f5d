//! Numbers as decimal text.
use crate::format::Format;
use crate::ieee::Binary64;
use crate::rounding::{lemma_nearest_even_scaled, nearest_even, power_of_two};
use vstd::arithmetic::power2::{
    lemma2_to64, lemma2_to64_rest, lemma_pow2_adds, lemma_pow2_pos, lemma_pow2_strictly_increases,
    lemma_pow2_unfold, pow2,
};
use vstd::prelude::*;
use vstd::string::StringExecFns;

verus! {

/// The decimal digit `d`.
pub open spec fn digit(d: nat) -> Seq<char> {
    if d == 0 {
        "0"@
    } else if d == 1 {
        "1"@
    } else if d == 2 {
        "2"@
    } else if d == 3 {
        "3"@
    } else if d == 4 {
        "4"@
    } else if d == 5 {
        "5"@
    } else if d == 6 {
        "6"@
    } else if d == 7 {
        "7"@
    } else if d == 8 {
        "8"@
    } else {
        "9"@
    }
}

/// A number in decimal.
pub open spec fn decimal(n: nat) -> Seq<char>
    decreases n,
{
    if n < 10 {
        digit(n)
    } else {
        decimal(n / 10) + digit(n % 10)
    }
}

fn digit_str(d: usize) -> (r: &'static str)
    requires
        d < 10,
    ensures
        r@ == digit(d as nat),
{
    if d == 0 {
        "0"
    } else if d == 1 {
        "1"
    } else if d == 2 {
        "2"
    } else if d == 3 {
        "3"
    } else if d == 4 {
        "4"
    } else if d == 5 {
        "5"
    } else if d == 6 {
        "6"
    } else if d == 7 {
        "7"
    } else if d == 8 {
        "8"
    } else {
        "9"
    }
}

/// Appends a number in decimal.
pub(crate) fn append_decimal(out: &mut String, n: usize)
    ensures
        final(out)@ == old(out)@ + decimal(n as nat),
{
    append_whole(out, n as u64)
}

fn append_whole(out: &mut String, n: u64)
    ensures
        final(out)@ == old(out)@ + decimal(n as nat),
    decreases n,
{
    let ghost given = out@;
    if n < 10 {
        out.append(digit_str(n as usize));
    } else {
        append_whole(out, n / 10);
        out.append(digit_str((n % 10) as usize));
        assert(out@ =~= given + decimal(n as nat));
    }
}

/// The number that the first `k` digits stand for, the highest digit first.
pub open spec fn digits_value(digits: Seq<usize>, k: nat) -> nat
    decreases k,
{
    if k == 0 {
        0
    } else {
        10 * digits_value(digits, (k - 1) as nat) + digits[k - 1] as nat
    }
}

/// The digits of a number without leading zeros.
spec fn are_digits(digits: Seq<usize>) -> bool {
    &&& digits.len() > 0
    &&& digits[0] > 0
    &&& forall|i: int| 0 <= i < digits.len() ==> #[trigger] digits[i] < 10
}

proof fn lemma_digits_prefix(digits: Seq<usize>, other: Seq<usize>, k: nat)
    requires
        k <= digits.len(),
        k <= other.len(),
        forall|i: int| 0 <= i < k ==> digits[i] == other[i],
    ensures
        digits_value(digits, k) == digits_value(other, k),
    decreases k,
{
    if k > 0 {
        lemma_digits_prefix(digits, other, (k - 1) as nat);
    }
}

proof fn lemma_digits_positive(digits: Seq<usize>, k: nat)
    requires
        are_digits(digits),
        0 < k <= digits.len(),
    ensures
        digits_value(digits, k) >= 1,
    decreases k,
{
    if k > 1 {
        lemma_digits_positive(digits, (k - 1) as nat);
    }
}

/// The digits of a positive number.
fn digits_of(n: u64) -> (r: Vec<usize>)
    requires
        n > 0,
    ensures
        are_digits(r@),
        digits_value(r@, r@.len()) == n,
    decreases n,
{
    if n < 10 {
        let mut digits: Vec<usize> = Vec::new();
        digits.push(n as usize);
        assert(digits_value(digits@, 0) == 0);
        digits
    } else {
        let mut digits: Vec<usize> = digits_of(n / 10);
        let ghost before = digits@;
        digits.push((n % 10) as usize);
        proof {
            lemma_digits_prefix(before, digits@, before.len());
        }
        digits
    }
}

/// The digits of twice the number that the first `k` digits stand for, and `carry` more.
fn doubled(digits: &Vec<usize>, k: usize, carry: usize) -> (r: Vec<usize>)
    requires
        are_digits(digits@),
        k <= digits@.len(),
        carry <= 1,
    ensures
        k > 0 ==> are_digits(r@),
        forall|i: int| 0 <= i < r@.len() ==> #[trigger] r@[i] < 10,
        k == 0 ==> r@ == (if carry == 0 {
            Seq::<usize>::empty()
        } else {
            seq![1usize]
        }),
        digits_value(r@, r@.len()) == 2 * digits_value(digits@, k as nat) + carry,
    decreases k,
{
    if k == 0 {
        let mut low: Vec<usize> = Vec::new();
        if carry > 0 {
            low.push(carry);
            assert(digits_value(low@, 0) == 0);
        }
        assert(low@ =~= if carry == 0 {
            Seq::<usize>::empty()
        } else {
            seq![1usize]
        });
        return low;
    }
    let sum: usize = 2 * digits[k - 1] + carry;
    let mut result: Vec<usize> = doubled(digits, k - 1, sum / 10);
    let ghost before = result@;
    result.push(sum % 10);
    proof {
        lemma_digits_prefix(before, result@, before.len());
        assert forall|i: int| 0 <= i < result@.len() implies #[trigger] result@[i] < 10 by {
            if i < before.len() {
                assert(result@[i] == before[i]);
            }
        }
        if k == 1 {
            assert(digits@[0] > 0);
        } else {
            assert(result@[0] == before[0]);
        }
    }
    result
}

/// The digits of `m` doubled `times` times.
fn digits_shifted(m: u64, times: u32) -> (r: Vec<usize>)
    requires
        m > 0,
    ensures
        are_digits(r@),
        digits_value(r@, r@.len()) == m * pow2(times as nat),
{
    let mut digits: Vec<usize> = digits_of(m);
    let mut i: u32 = 0;
    proof {
        lemma2_to64();
    }
    while i < times
        invariant
            i <= times,
            are_digits(digits@),
            digits_value(digits@, digits@.len()) == m * pow2(i as nat),
        decreases times - i,
    {
        let count: usize = digits.len();
        let next: Vec<usize> = doubled(&digits, count, 0);
        proof {
            lemma_pow2_unfold((i + 1) as nat);
            assert(2 * (m * pow2(i as nat)) == m * pow2((i + 1) as nat)) by (nonlinear_arith)
                requires
                    pow2((i + 1) as nat) == 2 * pow2(i as nat),
            ;
        }
        digits = next;
        i = i + 1;
    }
    digits
}

/// Appends a number given by its digits.
fn append_digits(out: &mut String, digits: &Vec<usize>)
    requires
        are_digits(digits@),
    ensures
        final(out)@ == old(out)@ + decimal(digits_value(digits@, digits@.len())),
{
    let ghost given = out@;
    let mut k: usize = 1;
    assert(digits_value(digits@, 0) == 0);
    out.append(digit_str(digits[0]));
    while k < digits.len()
        invariant
            1 <= k <= digits@.len(),
            are_digits(digits@),
            out@ == given + decimal(digits_value(digits@, k as nat)),
        decreases digits@.len() - k,
    {
        proof {
            lemma_digits_positive(digits@, k as nat);
        }
        out.append(digit_str(digits[k]));
        k = k + 1;
        assert(out@ =~= given + decimal(digits_value(digits@, k as nat)));
    }
}

/// The magnitude of a finite number in tenths, rounded to the nearest whole number, ties to even.
pub open spec fn tenths(value: Binary64) -> nat {
    nearest_even(
        10 * Binary64::format().units(value.parts().magnitude as nat),
        Binary64::one_value(),
    )
}

/// A number in decimal with one digit behind the point.
pub open spec fn fixed_text(value: Binary64) -> Seq<char> {
    if value.nan() {
        "NaN"@
    } else {
        let sign = if value.parts().negative {
            "-"@
        } else {
            ""@
        };
        if !value.finite() {
            sign + "inf"@
        } else {
            sign + decimal(tenths(value) / 10) + "."@ + digit(tenths(value) % 10)
        }
    }
}

/// Appends a number with one digit behind the point.
pub fn append_fixed(out: &mut String, value: Binary64)
    ensures
        final(out)@ == old(out)@ + fixed_text(value),
{
    let ghost given = out@;
    if value.is_nan() {
        out.append("NaN");
        return;
    }
    proof {
        reveal_strlit("");
    }
    if value.to_bits() >= 0x8000_0000_0000_0000 {
        out.append("-");
    }
    let ghost sign = if value.parts().negative {
        "-"@
    } else {
        ""@
    };
    assert(out@ =~= given + sign);
    if !value.is_finite() {
        out.append("inf");
        assert(out@ =~= given + (sign + "inf"@));
        return;
    }
    let (m, s) = Format::double().decode(value.to_bits() % 0x8000_0000_0000_0000);
    let ghost units = Binary64::format().units(value.parts().magnitude as nat);
    if s >= 1074 {
        let digits: Vec<usize> = digits_shifted(m, s - 1074);
        append_digits(out, &digits);
        out.append(".");
        out.append(digit_str(0));
        proof {
            let whole = m as nat * pow2((s - 1074) as nat);
            lemma_pow2_adds((s - 1074) as nat, 1074);
            lemma_pow2_pos(1074);
            assert(10 * units == (10 * whole) * pow2(1074)) by (nonlinear_arith)
                requires
                    units == m * pow2(s as nat),
                    pow2(s as nat) == pow2((s - 1074) as nat) * pow2(1074),
                    whole == m * pow2((s - 1074) as nat),
            ;
            vstd::arithmetic::div_mod::lemma_fundamental_div_mod_converse(
                (10 * units) as int,
                pow2(1074) as int,
                (10 * whole) as int,
                0,
            );
            assert(tenths(value) == 10 * whole);
            assert(out@ =~= given + (sign + decimal(whole) + "."@ + digit(0)));
        }
    } else {
        let k: u32 = 1074 - s;
        let count: u64 = small_tenths(m, k);
        proof {
            lemma_pow2_adds(k as nat, s as nat);
            lemma_pow2_pos(s as nat);
            lemma_pow2_pos(k as nat);
            assert(10 * units == (10 * m as nat) * pow2(s as nat)) by (nonlinear_arith)
                requires
                    units == m * pow2(s as nat),
            ;
            lemma_nearest_even_scaled((10 * m) as nat, pow2(k as nat), pow2(s as nat));
            assert(tenths(value) == count);
        }
        append_whole(out, count / 10);
        out.append(".");
        out.append(digit_str((count % 10) as usize));
        proof {
            assert(out@ =~= given + (sign + decimal((count / 10) as nat) + "."@ + digit(
                (count % 10) as nat,
            )));
        }
    }
}

/// Ten times `m`, divided by a power of two and rounded to the nearest whole number.
fn small_tenths(m: u64, k: u32) -> (r: u64)
    requires
        m <= 0x1000_0000_0000_0000,
        k > 0,
    ensures
        r == nearest_even((10 * m) as nat, pow2(k as nat)),
{
    let n: u128 = 10 * (m as u128);
    proof {
        lemma2_to64();
        lemma2_to64_rest();
        lemma_pow2_pos(k as nat);
    }
    if k >= 127 {
        proof {
            if k > 65 {
                lemma_pow2_strictly_increases(65, k as nat);
            }
            lemma_pow2_unfold(65);
            vstd::arithmetic::div_mod::lemma_fundamental_div_mod_converse(
                n as int,
                pow2(k as nat) as int,
                0,
                n as int,
            );
        }
        0
    } else {
        let d: u128 = power_of_two(k);
        proof {
            lemma_pow2_strictly_increases(k as nat, 127);
            lemma_pow2_strictly_increases(0, k as nat);
            crate::rounding::lemma_pow2_127();
            vstd::arithmetic::div_mod::lemma_div_is_ordered_by_denominator(
                n as int,
                2,
                d as int,
            );
        }
        let q: u128 = n / d;
        let rest: u128 = n % d;
        if 2 * rest < d || (2 * rest == d && q % 2 == 0) {
            q as u64
        } else {
            (q + 1) as u64
        }
    }
}

/// The number that a decimal text stands for.
pub open spec fn read_decimal(text: Seq<char>) -> int
    decreases text.len(),
{
    if text.len() == 0 {
        0
    } else {
        10 * read_decimal(text.drop_last()) + (text.last() as int - '0' as int)
    }
}

proof fn lemma_digit(d: nat)
    requires
        d < 10,
    ensures
        digit(d).len() == 1,
        digit(d)[0] as int == '0' as int + d,
{
    reveal_strlit("0");
    reveal_strlit("1");
    reveal_strlit("2");
    reveal_strlit("3");
    reveal_strlit("4");
    reveal_strlit("5");
    reveal_strlit("6");
    reveal_strlit("7");
    reveal_strlit("8");
    reveal_strlit("9");
}

/// A number in decimal reads as that number.
pub proof fn lemma_decimal_reads_back(n: nat)
    ensures
        read_decimal(decimal(n)) == n,
        decimal(n).len() > 0,
    decreases n,
{
    if n < 10 {
        lemma_digit(n);
        assert(digit(n).drop_last() =~= Seq::empty());
        assert(read_decimal(Seq::empty()) == 0);
    } else {
        lemma_decimal_reads_back(n / 10);
        lemma_digit(n % 10);
        let text = decimal(n);
        assert(text.drop_last() =~= decimal(n / 10));
        assert(text.last() == digit(n % 10)[0]);
    }
}

/// The tenths that are shown are those nearest to the number.
pub proof fn lemma_tenths_nearest(value: Binary64)
    requires
        value.finite(),
        value.value() >= 0,
    ensures
        2 * (tenths(value) * Binary64::one_value()) <= 20 * value.value() + Binary64::one_value(),
        20 * value.value() <= 2 * (tenths(value) * Binary64::one_value()) + Binary64::one_value(),
{
    let one = Binary64::one_value() as int;
    vstd::arithmetic::power2::lemma_pow2_pos(1074);
    let n = (10 * Binary64::format().units(value.parts().magnitude as nat)) as int;
    assert(value.value() >= 0 ==> n == 10 * value.value());
    vstd::arithmetic::div_mod::lemma_fundamental_div_mod(n, one);
    let q = n / one;
    assert(one * q == q * one && (q + 1) * one == q * one + one) by (nonlinear_arith);
}

} // verus!
