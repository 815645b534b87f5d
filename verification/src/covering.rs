//! What a gaze token covers, and how much coverage is asked for.
use crate::arith::{capped, ceil_quotient, lemma_ceil_quotient};
use crate::coverage::{
    finest_grid, generation_budget, share_of_cells, touched_cells, CoverageModel,
};
use crate::format::abs_nat;
use crate::ieee::{lemma_whole_doubles_exact, Binary64};
use crate::layout::{scale_of, AutoGazeScaleTokenLayout};
use crate::metrics::{double, lemma_unit_doubles, ONE_DOUBLE_BITS, ZERO_DOUBLE_BITS};
use crate::nearness::{
    lemma_double_ordered, lemma_double_times_between, lemma_double_times_near,
};
use vstd::prelude::*;

verus! {

/// The cell `a` of `m` cells along a side and the cell `b` of `n` cells along the same side have
/// more than an edge in common.
pub open spec fn cells_overlap(a: int, m: int, b: int, n: int) -> bool {
    a * n < (b + 1) * m && b * m < (a + 1) * n
}

proof fn lemma_overlap_range(a: int, m: int, b: int, n: int)
    requires
        0 <= a < m,
        0 <= b < n,
        (a + 1) * n <= usize::MAX,
    ensures
        ({
            let first = (capped((a * n) as nat) as nat / m as nat) as int;
            let end = ceil_quotient(capped(((a + 1) * n) as nat) as nat, m as nat) as int;
            &&& first <= b < end <==> cells_overlap(a, m, b, n)
            &&& 0 <= first < end <= n
        }),
{
    let (x, y) = (a * n, (a + 1) * n);
    assert(0 <= x <= y && y == x + n && y <= m * n) by (nonlinear_arith)
        requires
            x == a * n,
            y == (a + 1) * n,
            0 <= a,
            a + 1 <= m,
            n >= 0,
    ;
    lemma_ceil_quotient(y as nat, m as nat);
    vstd::arithmetic::div_mod::lemma_fundamental_div_mod(x, m);
    let first = x / m;
    let end = ceil_quotient(y as nat, m as nat) as int;
    assert(end >= 1) by (nonlinear_arith)
        requires
            end * m >= y,
            y > 0,
            m > 0,
    ;
    let k = (end - 1) as nat;
    assert(k * (m as nat) < y);
    assert(first <= b <==> x < (b + 1) * m) by (nonlinear_arith)
        requires
            x == m * first + x % m,
            0 <= x % m < m,
    {
        if first <= b {
            assert(m * first <= m * b);
        } else {
            assert(m * first >= m * (b + 1));
        }
    }
    assert(b < end <==> b * m < y) by (nonlinear_arith)
        requires
            end * m >= y,
            (end - 1) * m < y,
    {
        if b < end {
            assert(b * m <= (end - 1) * m);
        } else {
            assert(b * m >= end * m);
        }
    }
    assert(0 <= first && first < end && end <= n) by (nonlinear_arith)
        requires
            x == m * first + x % m,
            0 <= x % m < m,
            end * m >= y,
            (end - 1) * m < y,
            y > x,
            x >= 0,
            y <= m * n,
    ;
}

/// A token covers exactly the coverage cells that its own cell has more than an edge in common
/// with, in both directions.
pub proof fn lemma_token_covers_overlap(local: nat, source: nat, side: nat, row: int, col: int)
    requires
        local < source * source,
        source * side <= usize::MAX,
        0 <= row < side,
        0 <= col < side,
    ensures
        ({
            let (y0, y1, x0, x1) = touched_cells(local, source, side);
            (y0 <= row < y1 && x0 <= col < x1) <==> cells_overlap(
                (local / source) as int,
                source as int,
                row,
                side as int,
            ) && cells_overlap((local % source) as int, source as int, col, side as int)
        }),
{
    let (a, b) = (local as int / source as int, local as int % source as int);
    vstd::arithmetic::div_mod::lemma_fundamental_div_mod(local as int, source as int);
    let s = source as int;
    assert(0 <= a < s && s > 0) by (nonlinear_arith)
        requires
            local == s * a + b,
            0 <= b < s,
            0 <= local < s * s,
    ;
    assert((a + 1) * side <= s * side && (b + 1) * side <= s * side) by (nonlinear_arith)
        requires
            a + 1 <= s,
            b + 1 <= s,
            side >= 0,
    ;
    lemma_overlap_range(a, s, row, side as int);
    lemma_overlap_range(b, s, col, side as int);
}

/// Observing a token covers the cells that the token's own cell overlaps, keeps those that were
/// covered, and covers no others.
#[verifier::rlimit(40)]
pub proof fn lemma_observing_covers(model: CoverageModel, token: i64, row: int, col: int)
    requires
        !model.done(),
        0 <= token <= usize::MAX,
        0 <= row < model.grid,
        0 <= col < model.grid,
        model.covered.len() == model.grid * model.grid,
        scale_of(token as nat, model.layouts, 0) is Some,
        ({
            let (k, local) = scale_of(token as nat, model.layouts, 0)->0;
            let source = model.layouts[k as int].grid as nat;
            local < source * source && source * model.grid <= usize::MAX
        }),
    ensures
        ({
            let (k, local) = scale_of(token as nat, model.layouts, 0)->0;
            let source = model.layouts[k as int].grid as nat;
            let i = row * model.grid + col;
            &&& 0 <= i < model.covered.len()
            &&& model.after(token).covered[i] <==> model.covered[i] || cells_overlap(
                (local / source) as int,
                source as int,
                row,
                model.grid as int,
            ) && cells_overlap(
                (local % source) as int,
                source as int,
                col,
                model.grid as int,
            )
        }),
{
    let (k, local) = scale_of(token as nat, model.layouts, 0)->0;
    let source = model.layouts[k as int].grid as nat;
    let g = model.grid as int;
    let i = row * g + col;
    lemma_token_covers_overlap(local, source, model.grid, row, col);
    assert(0 <= i < g * g) by (nonlinear_arith)
        requires
            i == row * g + col,
            0 <= row,
            row + 1 <= g,
            0 <= col < g,
    ;
    vstd::arithmetic::div_mod::lemma_fundamental_div_mod_converse(i, g, row, col);
}

/// The cells that a share asks for are the fewest that make up the share, in double precision: the
/// share is no more than they are, and more than one fewer. All cells are asked for where the share
/// is one or more.
#[verifier::rlimit(40)]
pub proof fn lemma_share_asks(ratio: Binary64, cells: nat)
    requires
        ratio.finite(),
        ratio.value() > 0,
        0 < cells <= 0xffff_ffff,
    ensures
        ({
            let one = Binary64::one_value();
            let r = share_of_cells(ratio, cells);
            let exact = ratio.value() * cells;
            &&& 1 <= r <= cells
            &&& ratio.value() >= one ==> r == cells
            &&& ratio.value() <= one ==> 0x10_0000 * exact <= 0x10_0000 * (r * one) + one
            &&& ratio.value() <= one ==> 0x10_0000 * ((r - 1) * one) <= 0x10_0000 * exact + one
        }),
{
    lemma_unit_doubles();
    let one = Binary64::one_value() as int;
    let (zero, unit) = (double(ZERO_DOUBLE_BITS), double(ONE_DOUBLE_BITS));
    lemma_double_ordered(ratio, zero);
    lemma_double_ordered(unit, ratio);
    lemma_whole_doubles_exact(cells);
    let share = ratio.clamped(zero, unit);
    assert(share == if ratio.value() > one {
        unit
    } else {
        ratio
    });
    let all = Binary64::of_nat(cells);
    let (v, n) = (share.value(), cells as int);
    let w = v * n;
    assert(0 * one == 0) by (nonlinear_arith);
    assert(v * (n * one) == w * one && 0 < w <= n * one) by (nonlinear_arith)
        requires
            w == v * n,
            0 < v <= one,
            n > 0,
    ;
    assert(0 <= w * one && w * one <= (n * one) * one) by (nonlinear_arith)
        requires
            0 < w <= n * one,
            one > 0,
    ;
    lemma_double_times_between(share, all, zero, all);
    lemma_double_times_near(share, all);
    if v == one {
        assert(w * one == (n * one) * one) by (nonlinear_arith)
            requires
                w == v * n,
                v == one,
        ;
        lemma_double_times_between(share, all, all, all);
    }
    let x = share.times(all).value();
    let d = x - w;
    assert(x * one - w * one == d * one) by (nonlinear_arith)
        requires
            d == x - w,
    ;
    lemma_double_off(d, w, one);
    lemma_ceil_near(x, w, n, one);
}

/// What is off in a product, in units.
proof fn lemma_double_off(d: int, w: int, one: int)
    requires
        one > 0,
        w > 0,
        2 * abs_nat(d * one) <= one || 0x20_0000_0000_0000 * abs_nat(d * one) <= abs_nat(w * one),
    ensures
        0x20_0000_0000_0000 * abs_nat(d) <= w,
{
    let e = abs_nat(d) as int;
    assert(abs_nat(d * one) == e * one && abs_nat(w * one) == w * one) by (nonlinear_arith)
        requires
            e == abs_nat(d),
            one > 0,
            w > 0,
    ;
    assert(0x20_0000_0000_0000 * e <= w) by (nonlinear_arith)
        requires
            2 * (e * one) <= one || 0x20_0000_0000_0000 * (e * one) <= w * one,
            one > 0,
            w > 0,
            e >= 0,
    {
        if 2 * (e * one) <= one {
            assert((2 * e) * one <= 1 * one);
        } else {
            assert((0x20_0000_0000_0000 * e) * one <= w * one);
        }
    }
}

proof fn lemma_ceil_near(x: int, w: int, n: int, one: int)
    requires
        one > 0,
        0 < n <= 0xffff_ffff,
        0 < w <= n * one,
        0 <= x <= n * one,
        0x20_0000_0000_0000 * abs_nat(x - w) <= w,
    ensures
        ({
            let c = -((-x) / one);
            &&& 1 <= c <= n
            &&& 0x10_0000 * w <= 0x10_0000 * (c * one) + one
            &&& 0x10_0000 * ((c - 1) * one) <= 0x10_0000 * w + one
            &&& x == n * one ==> c == n
        }),
{
    let q = (-x) / one;
    let c = -q;
    vstd::arithmetic::div_mod::lemma_fundamental_div_mod(-x, one);
    assert(one * q == -(c * one) && (c - 1) * one == c * one - one) by (nonlinear_arith)
        requires
            c == -q,
    ;
    assert(n * one <= 0xffff_ffff * one) by (nonlinear_arith)
        requires
            n <= 0xffff_ffff,
            one > 0,
    ;
    assert(x > 0);
    assert(1 <= c <= n) by (nonlinear_arith)
        requires
            c * one - one < x <= c * one,
            0 < x <= n * one,
            one > 0,
    ;
    if x == n * one {
        assert(c == n) by (nonlinear_arith)
            requires
                c * one - one < x <= c * one,
                x == n * one,
                one > 0,
        ;
    }
}

/// The generation budget is the configured one, or the fewest whole decoding steps that yield as
/// many tokens as a partial coverage needs on the finest grid.
pub proof fn lemma_budget_covers(
    configured: nat,
    ratio: Binary64,
    layouts: Seq<AutoGazeScaleTokenLayout>,
    chunk: nat,
)
    requires
        ratio.finite(),
        0 < ratio.value() < Binary64::one_value(),
        configured > 0,
        0 < chunk <= 0xffff,
        0 < finest_grid(layouts, layouts.len()) <= 0x7fff,
    ensures
        ({
            let budget = generation_budget(configured, Some(ratio), layouts, chunk);
            let finest = finest_grid(layouts, layouts.len());
            let needed = share_of_cells(ratio, finest * finest);
            &&& budget <= configured
            &&& budget >= needed || budget == configured
            &&& budget < configured ==> budget % chunk == 0 && budget < needed + chunk
        }),
{
    lemma_unit_doubles();
    let finest = finest_grid(layouts, layouts.len());
    let cells = finest * finest;
    assert(0 < cells <= 0x3fff_ffff) by (nonlinear_arith)
        requires
            0 < finest <= 0x7fff,
            cells == finest * finest,
    ;
    lemma_double_ordered(double(ZERO_DOUBLE_BITS), ratio);
    lemma_double_ordered(double(ONE_DOUBLE_BITS), ratio);
    lemma_share_asks(ratio, cells);
    let needed = share_of_cells(ratio, cells) as nat;
    lemma_ceil_quotient(needed, chunk);
    let steps = ceil_quotient(needed, chunk);
    let k = (steps - 1) as nat;
    assert(steps >= 1) by (nonlinear_arith)
        requires
            steps * chunk >= needed,
            needed >= 1,
    ;
    assert(k * chunk < needed);
    assert(steps * chunk == k * chunk + chunk) by (nonlinear_arith)
        requires
            steps == k + 1,
    ;
    assert((steps * chunk) % chunk == 0) by {
        vstd::arithmetic::div_mod::lemma_mod_multiples_basic(steps as int, chunk as int);
    }
}

/// The finest grid is the largest side among the layouts that hold tokens.
pub proof fn lemma_finest_grid(layouts: Seq<AutoGazeScaleTokenLayout>, k: nat)
    requires
        k <= layouts.len(),
    ensures
        forall|i: int|
            0 <= i < k && (#[trigger] layouts[i]).token_count > 0 ==> layouts[i].grid
                <= finest_grid(layouts, k) && 1 <= finest_grid(layouts, k),
        finest_grid(layouts, k) > 1 ==> exists|i: int|
            0 <= i < k && (#[trigger] layouts[i]).token_count > 0 && layouts[i].grid
                == finest_grid(layouts, k),
        finest_grid(layouts, k) == 1 ==> exists|i: int|
            0 <= i < k && (#[trigger] layouts[i]).token_count > 0 && layouts[i].grid <= 1,
    decreases k,
{
    if k > 0 {
        lemma_finest_grid(layouts, (k - 1) as nat);
        let last = layouts[k - 1];
        let before = finest_grid(layouts, (k - 1) as nat);
        if finest_grid(layouts, k) > 1 {
            if last.token_count > 0 && last.grid >= before {
                assert(layouts[k - 1].grid == finest_grid(layouts, k));
            } else {
                assert(before == finest_grid(layouts, k));
            }
        }
    }
}

} // verus!
