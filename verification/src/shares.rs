//! What the confidence of a pick is.
//!
//! A pick is as confident as its share is large: its weight among the weights of all the tokens that
//! could have been picked in its place. The sum of those is exact here; how far the sum that is kept
//! in single precision can be off is part of what is stated.
use crate::format::abs_nat;
use crate::ieee::Binary32;
use crate::nearness::{
    lemma_single_held, lemma_single_ordered, lemma_single_over_below_one,
    lemma_single_over_between, lemma_single_over_near, lemma_single_over_same_ratio,
    lemma_single_plus_between, lemma_single_plus_grows, lemma_single_plus_near,
    lemma_single_plus_ordered, lemma_single_whole,
};
use crate::selection::{
    best_token, confidence_of, disallowed, lemma_best_token, mentions, row_active, row_selection,
    weight_total, RowRules, RowScores,
};
use crate::trace::{single, ONE_BITS, ZERO_BITS};
use vstd::arithmetic::power2::{
    lemma2_to64, lemma2_to64_rest, lemma_pow2_adds, lemma_pow2_pos, pow2,
};
use vstd::prelude::*;

verus! {

/// The token `v` can be picked: it is allowed and its score is a number.
pub open spec fn can_be_picked(
    row: RowScores,
    base: int,
    eos: i64,
    prior: Seq<i64>,
    picked: Seq<i64>,
    v: int,
) -> bool {
    !disallowed(eos, prior, picked, v as nat) && row.scores[base + v].finite()
}

/// The exact sum of the weights of the first `k` tokens that can be picked.
pub open spec fn weight_sum(
    row: RowScores,
    base: int,
    eos: i64,
    prior: Seq<i64>,
    picked: Seq<i64>,
    k: nat,
) -> int
    decreases k,
{
    if k == 0 {
        0
    } else {
        weight_sum(row, base, eos, prior, picked, (k - 1) as nat) + if can_be_picked(
            row,
            base,
            eos,
            prior,
            picked,
            k - 1,
        ) {
            row.weights[base + k - 1].value()
        } else {
            0
        }
    }
}

/// The weights of the first `k` tokens that can be picked are numbers, none of them negative, and
/// add up to no more than half of the largest number.
pub open spec fn weights_add_up(
    row: RowScores,
    base: int,
    eos: i64,
    prior: Seq<i64>,
    picked: Seq<i64>,
    k: nat,
) -> bool {
    &&& k <= 0x80_0000
    &&& forall|v: int|
        0 <= v < k && can_be_picked(row, base, eos, prior, picked, v) ==> (
        #[trigger] row.weights[base + v]).finite() && row.weights[base + v].value() >= 0
    &&& 2 * weight_sum(row, base, eos, prior, picked, k) <= single(0x7f7f_ffff).value()
}

/// A token is ruled out if it is the end token or was taken, and no other is.
pub proof fn lemma_ruled_out(eos: i64, prior: Seq<i64>, picked: Seq<i64>, v: nat)
    requires
        v <= i64::MAX,
        v <= usize::MAX,
        eos <= usize::MAX,
        forall|i: int| 0 <= i < prior.len() ==> #[trigger] prior[i] <= usize::MAX,
        forall|i: int| 0 <= i < picked.len() ==> #[trigger] picked[i] <= usize::MAX,
    ensures
        disallowed(eos, prior, picked, v) <==> eos == v || prior.contains(v as i64)
            || picked.contains(v as i64),
{
    lemma_mentioned(prior, v);
    lemma_mentioned(picked, v);
}

proof fn lemma_mentioned(tokens: Seq<i64>, v: nat)
    requires
        v <= i64::MAX,
        v <= usize::MAX,
        forall|i: int| 0 <= i < tokens.len() ==> #[trigger] tokens[i] <= usize::MAX,
    ensures
        mentions(tokens, v) <==> tokens.contains(v as i64),
{
    if tokens.contains(v as i64) {
        let i = choose|i: int| 0 <= i < tokens.len() && tokens[i] == v as i64;
        assert(tokens[i] >= 0 && tokens[i] as usize == v);
    }
    if mentions(tokens, v) {
        let i = choose|i: int|
            0 <= i < tokens.len() && #[trigger] tokens[i] >= 0 && tokens[i] as usize == v;
        assert(tokens[i] == v as i64);
    }
}

/// The sum that is kept in single precision is off from the exact one by no more than one part in
/// eight million for every term.
pub proof fn lemma_total_near_sum(
    row: RowScores,
    base: int,
    eos: i64,
    prior: Seq<i64>,
    picked: Seq<i64>,
    k: nat,
)
    requires
        weights_add_up(row, base, eos, prior, picked, k),
    ensures
        weight_sum(row, base, eos, prior, picked, k) >= 0,
        weight_total(row, base, eos, prior, picked, k).finite(),
        weight_total(row, base, eos, prior, picked, k).value() >= 0,
        0x80_0000 * abs_nat(
            weight_total(row, base, eos, prior, picked, k).value() - weight_sum(
                row,
                base,
                eos,
                prior,
                picked,
                k,
            ),
        ) <= k * weight_sum(row, base, eos, prior, picked, k),
    decreases k,
{
    let total = weight_total(row, base, eos, prior, picked, k);
    let sum = weight_sum(row, base, eos, prior, picked, k);
    let zero = single(ZERO_BITS);
    lemma_zero();
    if k > 0 {
        let j = (k - 1) as nat;
        let before = weight_total(row, base, eos, prior, picked, j);
        let partial = weight_sum(row, base, eos, prior, picked, j);
        let w = row.weights[base + j];
        lemma_total_near_sum(row, base, eos, prior, picked, j);
        let err = abs_nat(before.value() - partial) as int;
        if can_be_picked(row, base, eos, prior, picked, j as int) {
            assert(w.finite() && w.value() >= 0);
            assert(err <= partial) by (nonlinear_arith)
                requires
                    0x80_0000 * err <= j * partial,
                    0 <= j <= 0x80_0000,
                    partial >= 0,
            ;
            let top = single(0x7f7f_ffff);
            assert(before.value() + w.value() <= top.value());
            lemma_single_plus_between(before, w, zero, top);
            lemma_single_plus_near(before, w);
            let exact = before.value() + w.value();
            let off = abs_nat(total.value() - exact) as int;
            let all = abs_nat(total.value() - sum) as int;
            assert(all <= err + off);
            assert(0x80_0000 * all <= k * sum) by (nonlinear_arith)
                requires
                    0 <= all <= err + off,
                    0x100_0000 * off <= exact,
                    exact <= sum + err,
                    0x80_0000 * err <= j * partial,
                    0 <= partial <= sum,
                    0 <= j <= 0x80_0000,
                    k == j + 1,
                    err <= partial,
            {
                assert(j * partial <= j * sum);
                assert(0x80_0000 * err <= j * sum);
                assert(0x100_0000 * off <= 2 * sum);
                assert((j + 1) * sum == j * sum + sum);
            }
        } else {
            assert(j * partial <= k * partial) by (nonlinear_arith)
                requires
                    partial >= 0,
                    k == j + 1,
            ;
        }
    }
}

/// The sum that is kept is no less than the sum of any two of the weights, and than any one.
#[verifier::rlimit(40)]
proof fn lemma_total_covers(
    row: RowScores,
    base: int,
    eos: i64,
    prior: Seq<i64>,
    picked: Seq<i64>,
    k: nat,
    u: int,
)
    requires
        weights_add_up(row, base, eos, prior, picked, k),
        0 <= u < k,
        can_be_picked(row, base, eos, prior, picked, u),
    ensures
        row.weights[base + u].value() <= weight_total(row, base, eos, prior, picked, k).value(),
        forall|v: int|
            0 <= v < k && v != u && can_be_picked(row, base, eos, prior, picked, v) ==> (
            #[trigger] row.weights[base + v]).plus(row.weights[base + u]).value() <= weight_total(
                row,
                base,
                eos,
                prior,
                picked,
                k,
            ).value() && row.weights[base + u].plus(row.weights[base + v]).value() <= weight_total(
                row,
                base,
                eos,
                prior,
                picked,
                k,
            ).value(),
    decreases k,
{
    let total = weight_total(row, base, eos, prior, picked, k);
    let j = (k - 1) as nat;
    let before = weight_total(row, base, eos, prior, picked, j);
    let w = row.weights[base + j];
    let wu = row.weights[base + u];
    lemma_total_near_sum(row, base, eos, prior, picked, k);
    lemma_fewer_weights(row, base, eos, prior, picked, k);
    lemma_total_near_sum(row, base, eos, prior, picked, j);
    assert(wu.finite() && wu.value() >= 0);
    if can_be_picked(row, base, eos, prior, picked, j as int) {
        lemma_single_plus_grows(before, w);
    }
    if u < j {
        lemma_total_covers(row, base, eos, prior, picked, j, u);
        if can_be_picked(row, base, eos, prior, picked, j as int) {
            lemma_single_plus_ordered(wu, w, before, w);
            lemma_single_plus_ordered(w, wu, before, w);
        }
    } else {
        assert forall|v: int|
            0 <= v < k && v != u && can_be_picked(row, base, eos, prior, picked, v) implies (
        #[trigger] row.weights[base + v]).plus(wu).value() <= total.value() && wu.plus(
            row.weights[base + v],
        ).value() <= total.value() by {
            lemma_total_covers(row, base, eos, prior, picked, j, v);
            lemma_single_plus_ordered(row.weights[base + v], wu, before, wu);
            lemma_single_plus_ordered(wu, row.weights[base + v], before, wu);
        }
    }
}

proof fn lemma_fewer_weights(
    row: RowScores,
    base: int,
    eos: i64,
    prior: Seq<i64>,
    picked: Seq<i64>,
    k: nat,
)
    requires
        weights_add_up(row, base, eos, prior, picked, k),
        k > 0,
    ensures
        weights_add_up(row, base, eos, prior, picked, (k - 1) as nat),
{
    if can_be_picked(row, base, eos, prior, picked, k - 1) {
        assert(row.weights[base + (k - 1)].value() >= 0);
    }
}

/// Where all weights are multiples of one power of two and their sum has no more digits than single
/// precision keeps, the sum that is kept is exact.
pub proof fn lemma_total_exact(
    row: RowScores,
    base: int,
    eos: i64,
    prior: Seq<i64>,
    picked: Seq<i64>,
    k: nat,
    e: nat,
)
    requires
        weights_add_up(row, base, eos, prior, picked, k),
        e <= 252,
        forall|v: int|
            0 <= v < k && can_be_picked(row, base, eos, prior, picked, v) ==> (
            #[trigger] row.weights[base + v]).value() % (pow2(e) as int) == 0,
        weight_sum(row, base, eos, prior, picked, k) <= 0x100_0000 * pow2(e),
    ensures
        weight_total(row, base, eos, prior, picked, k).value() == weight_sum(
            row,
            base,
            eos,
            prior,
            picked,
            k,
        ),
        weight_sum(row, base, eos, prior, picked, k) % (pow2(e) as int) == 0,
    decreases k,
{
    lemma_zero();
    let q = pow2(e) as int;
    lemma_pow2_pos(e);
    if k > 0 {
        let j = (k - 1) as nat;
        let w = row.weights[base + j];
        lemma_fewer_weights(row, base, eos, prior, picked, k);
        if can_be_picked(row, base, eos, prior, picked, j as int) {
            assert(w.finite() && w.value() >= 0 && w.value() % q == 0);
            lemma_total_exact(row, base, eos, prior, picked, j, e);
            lemma_total_near_sum(row, base, eos, prior, picked, j);
            let before = weight_total(row, base, eos, prior, picked, j);
            let sum = before.value() + w.value();
            vstd::arithmetic::div_mod::lemma_mod_adds(before.value(), w.value(), q);
            vstd::arithmetic::div_mod::lemma_fundamental_div_mod(sum, q);
            let g = sum / q;
            assert(sum % q == 0);
            assert(sum == g * q) by (nonlinear_arith)
                requires
                    sum == q * g + 0,
            ;
            assert(0 <= g <= 0x100_0000) by (nonlinear_arith)
                requires
                    sum == g * q,
                    0 <= sum <= 0x100_0000 * q,
                    q > 0,
            ;
            let held = lemma_single_held(g as nat, e);
            lemma_single_plus_between(before, w, held, held);
        } else {
            lemma_total_exact(row, base, eos, prior, picked, j, e);
        }
    } else {
        assert(0int % q == 0);
    }
}

/// Step `j` of a row adds a valid pick.
pub open spec fn picks_at(row: RowScores, rules: RowRules, j: nat) -> bool {
    let before = row_selection(row, rules, j);
    let after = row_selection(row, rules, j + 1);
    &&& after.tokens.len() == before.tokens.len() + 1
    &&& after.valid.len() == after.tokens.len()
    &&& after.confidences.len() == after.tokens.len()
    &&& after.valid.last()
}

/// The tokens that step `j` of a row could pick add up.
pub open spec fn step_adds_up(row: RowScores, rules: RowRules, j: nat) -> bool {
    weights_add_up(
        row,
        row.row_base + j * row.vocab,
        rules.eos,
        rules.prior,
        row_selection(row, rules, j).picked,
        row.vocab,
    )
}

/// The exact sum of the weights of the tokens that step `j` of a row could pick.
pub open spec fn step_sum(row: RowScores, rules: RowRules, j: nat) -> int {
    weight_sum(
        row,
        row.row_base + j * row.vocab,
        rules.eos,
        rules.prior,
        row_selection(row, rules, j).picked,
        row.vocab,
    )
}

/// Step `j` of a row could pick the token `v`.
pub open spec fn step_can_pick(row: RowScores, rules: RowRules, j: nat, v: int) -> bool {
    0 <= v < row.vocab && can_be_picked(
        row,
        row.row_base + j * row.vocab,
        rules.eos,
        rules.prior,
        row_selection(row, rules, j).picked,
        v,
    )
}

/// The weight that step `j` of a row gives to the token `v`.
pub open spec fn step_weight(row: RowScores, j: nat, v: int) -> Binary32 {
    row.weights[row.row_base + j * row.vocab + v]
}

#[verifier::rlimit(40)]
proof fn lemma_pick(row: RowScores, rules: RowRules, j: nat)
    requires
        picks_at(row, rules, j),
        step_adds_up(row, rules, j),
    ensures
        ({
            let after = row_selection(row, rules, j + 1);
            let base = row.row_base + j * row.vocab;
            let picked = row_selection(row, rules, j).picked;
            let total = weight_total(row, base, rules.eos, rules.prior, picked, row.vocab);
            let b = after.tokens.last() as int;
            let w = step_weight(row, j, b);
            let sum = step_sum(row, rules, j);
            &&& step_can_pick(row, rules, j, b)
            &&& total.finite()
            &&& 0 <= w.value() <= total.value()
            &&& w.finite()
            &&& total.value() <= 2 * sum
            &&& 0x80_0000 * abs_nat(total.value() - sum) <= row.vocab * sum
            &&& after.confidences.last() == confidence_of(w, total, rules.apart)
            &&& w.value() > 0 ==> w.over(total).finite()
            &&& w.value() > 0 && w.over(total).value() > 0 ==> after.confidences.last() == w.over(
                total,
            )
        }),
{
    let before = row_selection(row, rules, j);
    let after = row_selection(row, rules, j + 1);
    let base = row.row_base + j * row.vocab;
    let total = weight_total(row, base, rules.eos, rules.prior, before.picked, row.vocab);
    let sum = step_sum(row, rules, j);
    lemma_best_token(row.scores, base, rules.eos, rules.prior, before.picked, row.vocab);
    let b = best_token(row.scores, base, rules.eos, rules.prior, before.picked, row.vocab)->0;
    assert(can_be_picked(row, base, rules.eos, rules.prior, before.picked, b as int));
    let w = step_weight(row, j, b as int);
    lemma_total_near_sum(row, base, rules.eos, rules.prior, before.picked, row.vocab);
    lemma_total_covers(row, base, rules.eos, rules.prior, before.picked, row.vocab, b as int);
    assert(w.finite() && w.value() >= 0);
    let err = abs_nat(total.value() - sum) as int;
    let k = row.vocab;
    assert(err <= sum) by (nonlinear_arith)
        requires
            0x80_0000 * err <= k * sum,
            0 <= k <= 0x80_0000,
            sum >= 0,
    ;
    lemma_zero();
    lemma_single_ordered(single(ZERO_BITS), total);
    if w.value() > 0 {
        let (u, v) = (w.value(), total.value());
        let one = single(ONE_BITS);
        lemma_one();
        assert(0 <= u * Binary32::one_value() <= one.value() * v) by (nonlinear_arith)
            requires
                0 < u <= v,
                one.value() == Binary32::one_value(),
        ;
        assert(0 * v == 0) by (nonlinear_arith);
        lemma_single_over_between(w, total, single(ZERO_BITS), one);
        lemma_single_ordered(single(ZERO_BITS), w.over(total));
    }
}

/// The confidence of a valid pick is its weight divided by the sum of the weights of all the tokens
/// that could have been picked, as far as single precision keeps it: off by no more than a part in
/// eight million for every token of the vocabulary, and one for the division.
///
/// The sum is no more than eight million times the weight, as it is where no weight is larger and
/// the vocabulary is no larger than that.
#[verifier::rlimit(40)]
pub proof fn lemma_confidence_is_share(row: RowScores, rules: RowRules, j: nat)
    requires
        picks_at(row, rules, j),
        step_adds_up(row, rules, j),
        ({
            let w = step_weight(row, j, row_selection(row, rules, j + 1).tokens.last() as int);
            0 < step_sum(row, rules, j) <= 0x80_0000 * w.value()
        }),
    ensures
        ({
            let after = row_selection(row, rules, j + 1);
            let w = step_weight(row, j, after.tokens.last() as int).value();
            let sum = step_sum(row, rules, j);
            let c = after.confidences.last();
            let one = Binary32::one_value();
            &&& step_can_pick(row, rules, j, after.tokens.last() as int)
            &&& c.finite()
            &&& 0 < c.value() <= one
            &&& 0x80_0000 * abs_nat(c.value() * sum - w * one) <= row.vocab * (c.value() * sum) + w
                * one
        }),
{
    let before = row_selection(row, rules, j);
    let after = row_selection(row, rules, j + 1);
    let base = row.row_base + j * row.vocab;
    let total = weight_total(row, base, rules.eos, rules.prior, before.picked, row.vocab);
    let sum = step_sum(row, rules, j);
    let b = after.tokens.last() as int;
    let weight = step_weight(row, j, b);
    lemma_pick(row, rules, j);
    lemma_zero();
    lemma_one();
    lemma_pow2_adds(24, 125);
    lemma_pow2_adds(48, 101);
    lemma2_to64();
    lemma2_to64_rest();
    lemma_pow2_pos(125);
    lemma_pow2_pos(101);
    let one = Binary32::one_value() as int;
    let (w, t) = (weight.value(), total.value());
    let lo = lemma_single_held(1, 125);
    assert(one == 0x100_0000 * pow2(125));
    assert(one == 0x1_0000_0000_0000 * pow2(101));
    assert(t <= 0x100_0000 * w);
    assert(lo.value() * t <= w * one) by (nonlinear_arith)
        requires
            t <= 0x100_0000 * w,
            lo.value() == 1 * pow2(125),
            one == 0x100_0000 * pow2(125),
            pow2(125) > 0,
    ;
    assert(w * one <= single(ONE_BITS).value() * t) by (nonlinear_arith)
        requires
            0 < w <= t,
            single(ONE_BITS).value() == one,
            one > 0,
    ;
    lemma_single_over_between(weight, total, lo, single(ONE_BITS));
    lemma_single_over_near(weight, total);
    let c = after.confidences.last();
    assert(c == weight.over(total));
    assert(c.value() > 0);
    let exact = w * one;
    let off = abs_nat(c.value() * t - exact) as int;
    assert(exact > 0) by (nonlinear_arith)
        requires
            exact == w * one,
            w > 0,
            one > 0,
    ;
    assert(0x100_0000 * off <= exact) by (nonlinear_arith)
        requires
            2 * off <= t || 0x100_0000 * off <= exact,
            t <= 0x100_0000 * w,
            exact == w * one,
            one >= 0x1_0000_0000_0000,
            w > 0,
            off >= 0,
    {
        assert(w * one >= w * 0x1_0000_0000_0000);
    }
    let err = abs_nat(t - sum) as int;
    let k = row.vocab as int;
    lemma_share_error(c.value(), t, sum, exact, k);
}

/// What is off in the sum and what is off in the quotient add up.
proof fn lemma_share_error(c: int, t: int, sum: int, exact: int, k: int)
    requires
        c > 0,
        t > 0,
        sum >= 0,
        exact >= 0,
        k >= 0,
        0x100_0000 * abs_nat(c * t - exact) <= exact,
        0x80_0000 * abs_nat(t - sum) <= k * sum,
    ensures
        0x80_0000 * abs_nat(c * sum - exact) <= k * (c * sum) + exact,
{
    let err = abs_nat(t - sum) as int;
    let d = t - sum;
    assert(c * t - c * sum == c * d) by (nonlinear_arith)
        requires
            d == t - sum,
    ;
    assert(-(c * err) <= c * d <= c * err) by (nonlinear_arith)
        requires
            -err <= d <= err,
            c > 0,
    ;
    assert(0x80_0000 * (c * err) <= k * (c * sum)) by (nonlinear_arith)
        requires
            0x80_0000 * err <= k * sum,
            c > 0,
    {
        assert(c * (0x80_0000 * err) <= c * (k * sum));
        assert(c * (0x80_0000 * err) == 0x80_0000 * (c * err));
        assert(c * (k * sum) == k * (c * sum));
    }
}

/// Where some other token that could have been picked has a weight that counts beside the pick's,
/// the confidence lies below one.
pub proof fn lemma_confidence_below_one(row: RowScores, rules: RowRules, j: nat, v: int)
    requires
        picks_at(row, rules, j),
        step_adds_up(row, rules, j),
        step_can_pick(row, rules, j, v),
        ({
            let b = row_selection(row, rules, j + 1).tokens.last() as int;
            let w = step_weight(row, j, b);
            &&& v != b
            &&& 0 < step_sum(row, rules, j) <= 0x80_0000 * w.value()
            &&& w.value() < w.plus(step_weight(row, j, v)).value()
        }),
    ensures
        row_selection(row, rules, j + 1).confidences.last().value() < Binary32::one_value(),
{
    let before = row_selection(row, rules, j);
    let after = row_selection(row, rules, j + 1);
    let base = row.row_base + j * row.vocab;
    let total = weight_total(row, base, rules.eos, rules.prior, before.picked, row.vocab);
    let b = after.tokens.last() as int;
    let w = step_weight(row, j, b);
    lemma_confidence_is_share(row, rules, j);
    lemma_pick(row, rules, j);
    lemma_total_covers(row, base, rules.eos, rules.prior, before.picked, row.vocab, b);
    assert(row.weights[base + v] == step_weight(row, j, v));
    lemma_single_over_below_one(w, total);
    lemma_over_not_zero(w, total);
}

/// A quotient of numbers that are not far apart is not zero.
proof fn lemma_over_not_zero(w: Binary32, total: Binary32)
    requires
        w.finite(),
        total.finite(),
        0 < w.value() <= total.value() <= 0x100_0000 * w.value(),
    ensures
        w.over(total).finite(),
        w.over(total).value() > 0,
{
    lemma_one();
    lemma_pow2_adds(24, 125);
    lemma2_to64();
    lemma_pow2_pos(125);
    let one = Binary32::one_value() as int;
    let lo = lemma_single_held(1, 125);
    let (u, v) = (w.value(), total.value());
    assert(lo.value() * v <= u * one) by (nonlinear_arith)
        requires
            v <= 0x100_0000 * u,
            lo.value() == 1 * pow2(125),
            one == 0x100_0000 * pow2(125),
            pow2(125) > 0,
    ;
    assert(u * one <= single(ONE_BITS).value() * v) by (nonlinear_arith)
        requires
            0 < u <= v,
            single(ONE_BITS).value() == one,
            one > 0,
    ;
    lemma_single_over_between(w, total, lo, single(ONE_BITS));
}

/// Where `n` tokens could have been picked with the pick's weight and every other without any, the
/// confidence is one over `n`.
///
/// The weight is a multiple of `2^e` units, and `n` times the weight has no more digits than single
/// precision keeps.
#[verifier::rlimit(40)]
pub proof fn lemma_equal_weights_share(row: RowScores, rules: RowRules, j: nat, n: nat, e: nat)
    requires
        picks_at(row, rules, j),
        step_adds_up(row, rules, j),
        0 < n <= 0x80_0000,
        e <= 252,
        ({
            let w = step_weight(row, j, row_selection(row, rules, j + 1).tokens.last() as int);
            &&& w.value() > 0
            &&& w.value() % (pow2(e) as int) == 0
            &&& n * w.value() <= 0x100_0000 * pow2(e)
            &&& step_sum(row, rules, j) == n * w.value()
            &&& forall|v: int|
                #[trigger] step_can_pick(row, rules, j, v) ==> step_weight(row, j, v).value() == 0
                    || step_weight(row, j, v).value() == w.value()
        }),
    ensures
        row_selection(row, rules, j + 1).confidences.last() == single(ONE_BITS).over(
            Binary32::of_nat(n),
        ),
{
    let before = row_selection(row, rules, j);
    let after = row_selection(row, rules, j + 1);
    let base = row.row_base + j * row.vocab;
    let total = weight_total(row, base, rules.eos, rules.prior, before.picked, row.vocab);
    let b = after.tokens.last() as int;
    let w = step_weight(row, j, b);
    let q = pow2(e) as int;
    lemma_pow2_pos(e);
    lemma_one();
    lemma_single_whole(n);
    assert forall|v: int|
        0 <= v < row.vocab && can_be_picked(
            row,
            base,
            rules.eos,
            rules.prior,
            before.picked,
            v,
        ) implies (#[trigger] row.weights[base + v]).value() % q == 0 by {
        assert(step_can_pick(row, rules, j, v));
        assert(0int % q == 0);
        assert(step_weight(row, j, v).value() % q == 0);
    }
    lemma_total_exact(row, base, rules.eos, rules.prior, before.picked, row.vocab, e);
    lemma_pick(row, rules, j);
    let (x, m) = (w.value(), n as int);
    assert(x <= m * x <= 0x80_0000 * x) by (nonlinear_arith)
        requires
            x > 0,
            1 <= m <= 0x80_0000,
    ;
    lemma_over_not_zero(w, total);
    let one = Binary32::one_value() as int;
    assert(x * (m * one) == one * (m * x)) by (nonlinear_arith);
    assert(m * one > 0) by (nonlinear_arith)
        requires
            m > 0,
            one > 0,
    ;
    lemma_single_over_same_ratio(w, total, single(ONE_BITS), Binary32::of_nat(n));
}

proof fn lemma_one()
    ensures
        single(ONE_BITS).finite(),
        single(ONE_BITS).value() == Binary32::one_value(),
        Binary32::one_value() > 0,
{
    let f = Binary32::format();
    f.lemma_constants();
    lemma_pow2_pos(149);
    lemma_pow2_adds(23, 126);
    lemma2_to64();
    assert(f.significand(0x3f80_0000) == 0x80_0000);
    assert(f.shift(0x3f80_0000) == 126);
}

proof fn lemma_zero()
    ensures
        single(ZERO_BITS).finite(),
        single(ZERO_BITS).value() == 0,
        single(0x7f7f_ffff).finite(),
        single(0x7f7f_ffff).value() > 0,
{
    let f = Binary32::format();
    f.lemma_constants();
    assert(0 * pow2(0) == 0) by (nonlinear_arith);
    let m = 0x7f7f_ffffnat;
    lemma_pow2_pos(f.shift(m));
    assert(f.significand(m) >= 1);
    let (g, q) = (f.significand(m) as int, pow2(f.shift(m)) as int);
    assert(g * q > 0) by (nonlinear_arith)
        requires
            g >= 1,
            q >= 1,
    ;
}

/// What a step picks is the token with the highest score among those that it could pick, and of
/// several such the first. A step of a row that takes tokens picks one exactly where it could pick
/// any.
pub proof fn lemma_pick_is_best(row: RowScores, rules: RowRules, j: nat, v: int)
    requires
        row_active(rules, row_selection(row, rules, j)),
        row.vocab <= i64::MAX,
        step_can_pick(row, rules, j, v),
    ensures
        ({
            let base = row.row_base + j * row.vocab;
            let before = row_selection(row, rules, j);
            let after = row_selection(row, rules, j + 1);
            let b = after.picked.last() as int;
            &&& after.picked == before.picked.push(b as i64)
            &&& after.tokens.len() == before.tokens.len() + 1
            &&& step_can_pick(row, rules, j, b)
            &&& row.scores[base + v].value() <= row.scores[base + b].value()
            &&& v < b ==> row.scores[base + v].value() < row.scores[base + b].value()
            &&& after.tokens.last() == b || after.tokens.last() == rules.eos
        }),
{
    let base = row.row_base + j * row.vocab;
    let before = row_selection(row, rules, j);
    lemma_best_token(row.scores, base, rules.eos, rules.prior, before.picked, row.vocab);
    let best = best_token(row.scores, base, rules.eos, rules.prior, before.picked, row.vocab);
    assert(!disallowed(rules.eos, rules.prior, before.picked, v as nat));
    let b = best->0;
    lemma_single_ordered(row.scores[base + v], row.scores[base + b]);
}

/// A pick turns into an end token exactly where its task loss is at or below the requirement, but
/// not in the first step of a frame. A pick that stays is valid, and one that does not has no
/// confidence.
pub proof fn lemma_task_loss_stops(row: RowScores, rules: RowRules, j: nat)
    requires
        row_selection(row, rules, j + 1).tokens.len() == row_selection(row, rules, j).tokens.len()
            + 1,
        row.tasks[row.task_base + j].finite(),
        rules.stop.requirement matches Some(requirement) ==> requirement.finite(),
    ensures
        ({
            let after = row_selection(row, rules, j + 1);
            let loss = row.tasks[row.task_base + j];
            let stopped = (rules.stop.requirement matches Some(requirement) && loss.value()
                <= requirement.value()) && !(rules.stop.is_first_token && j == 0);
            &&& after.valid.last() == !stopped
            &&& stopped ==> after.tokens.last() == rules.eos && after.confidences.last() == single(
                ZERO_BITS,
            )
            &&& !stopped ==> after.tokens.last() == after.picked.last()
        }),
{
    if rules.stop.requirement is Some {
        lemma_single_ordered(row.tasks[row.task_base + j], rules.stop.requirement->0);
    }
}

/// Where no token that could have been picked has weight, the pick is certain. Where others have
/// weight and the pick has none, it has no share, which counts as certain unless the scores are kept
/// apart from their task losses.
#[verifier::rlimit(40)]
pub proof fn lemma_confidence_without_weight(row: RowScores, rules: RowRules, j: nat)
    requires
        picks_at(row, rules, j),
        step_adds_up(row, rules, j),
        ({
            let w = step_weight(row, j, row_selection(row, rules, j + 1).tokens.last() as int);
            w.value() == 0
        }),
    ensures
        ({
            let c = row_selection(row, rules, j + 1).confidences.last();
            let sum = step_sum(row, rules, j);
            &&& sum == 0 ==> c.value() == Binary32::one_value()
            &&& sum > 0 && !rules.apart ==> c.value() == Binary32::one_value()
            &&& sum > 0 && rules.apart ==> c.value() == 0
        }),
{
    let before = row_selection(row, rules, j);
    let after = row_selection(row, rules, j + 1);
    let base = row.row_base + j * row.vocab;
    let total = weight_total(row, base, rules.eos, rules.prior, before.picked, row.vocab);
    let w = step_weight(row, j, after.tokens.last() as int);
    let sum = step_sum(row, rules, j);
    let k = row.vocab as int;
    lemma_pick(row, rules, j);
    lemma_zero();
    lemma_one();
    lemma_total_near_sum(row, base, rules.eos, rules.prior, before.picked, row.vocab);
    lemma_single_ordered(single(ZERO_BITS), total);
    if sum > 0 {
        lemma_sum_counts(row, base, rules.eos, rules.prior, before.picked, row.vocab);
    } else {
        assert(k * 0 == 0) by (nonlinear_arith);
    }
    if total.value() > 0 {
        let one = Binary32::one_value() as int;
        let t = total.value();
        assert(0 * t == 0 && 0 * one == 0) by (nonlinear_arith);
        lemma_single_over_between(w, total, single(ZERO_BITS), single(ZERO_BITS));
        lemma_single_ordered(single(ZERO_BITS), w.over(total));
    }
}

/// The sum that is kept is not zero where the exact one is not.
proof fn lemma_sum_counts(
    row: RowScores,
    base: int,
    eos: i64,
    prior: Seq<i64>,
    picked: Seq<i64>,
    k: nat,
)
    requires
        weights_add_up(row, base, eos, prior, picked, k),
        weight_sum(row, base, eos, prior, picked, k) > 0,
    ensures
        weight_total(row, base, eos, prior, picked, k).value() > 0,
    decreases k,
{
    let j = (k - 1) as nat;
    lemma_total_near_sum(row, base, eos, prior, picked, k);
    lemma_fewer_weights(row, base, eos, prior, picked, k);
    lemma_total_near_sum(row, base, eos, prior, picked, j);
    if can_be_picked(row, base, eos, prior, picked, j as int) {
        let w = row.weights[base + j];
        assert(w.finite() && w.value() >= 0);
        let before = weight_total(row, base, eos, prior, picked, j);
        lemma_single_plus_grows(before, w);
        if w.value() == 0 {
            lemma_sum_counts(row, base, eos, prior, picked, j);
        }
    } else {
        lemma_sum_counts(row, base, eos, prior, picked, j);
    }
}

} // verus!
