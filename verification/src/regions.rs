//! Which cells of a grid a region selects.
//!
//! A region selects the cells that it touches and no others, a dilated one the cells around them
//! too. What is said of touching holds up to one part in 256 of a cell, which is where single
//! precision ends for the largest grids considered here.
use crate::format::abs_nat;
use crate::ieee::Binary32;
use crate::nearness::{
    lemma_single_ordered, lemma_single_over_between, lemma_single_plus_between,
    lemma_single_plus_near, lemma_single_times_between, lemma_single_times_near,
    lemma_single_whole,
};
use crate::placement::{
    is_unit, lemma_bounds_about_centre, lemma_clamped, lemma_over_whole_near, lemma_scaled_off,
    lemma_simple_values, spans,
};
use crate::projection::{
    bin_grid, end_cell, first_cell, frames_selected, is_full, point_rect, point_rects, rect_cells,
    rect_tokens, rects_selected, spread_indices, video_limit, with_new,
};
use crate::readout::{
    SparseReadoutGrid, SparseReadoutOptions, SparseReadoutRect, SparseVideoReadoutGrid,
    SparseVideoReadoutOptions, EPSILON_BITS, GRID_BOUNDARY_EPSILON_BITS,
};
use crate::trace::{
    single, unit_clamped, FixationPoint, MIN_CELL_EXTENT_BITS, ONE_BITS, ZERO_BITS,
};
use vstd::arithmetic::power2::{
    lemma2_to64, lemma2_to64_rest, lemma_pow2_adds, lemma_pow2_pos, pow2,
};
use vstd::prelude::*;

verus! {

/// The margin at the boundary of a cell is a number, and less than a part in half a million.
proof fn lemma_margin()
    ensures
        ({
            let margin = single(GRID_BOUNDARY_EPSILON_BITS);
            let minus = margin.negated();
            &&& margin.finite()
            &&& 0 < 0x8_0000 * margin.value() < Binary32::one_value()
            &&& minus.finite()
            &&& minus.value() == -margin.value()
        }),
{
    let f = Binary32::format();
    f.lemma_constants();
    let m = 0x3586_37bdnat;
    assert(f.significand(m) == 0x86_37bd);
    assert(f.shift(m) == 106);
    lemma_pow2_adds(43, 106);
    lemma2_to64();
    lemma2_to64_rest();
    lemma_pow2_pos(106);
    let (p, q) = (pow2(106) as int, pow2(149) as int);
    assert(0 < 0x8_0000 * (0x86_37bd * p) < q) by (nonlinear_arith)
        requires
            q == 0x800_0000_0000 * p,
            p > 0,
    ;
}

/// An edge times the cells of the grid, in single precision.
pub(crate) proof fn lemma_edge_place(edge: Binary32, n: nat)
    requires
        is_unit(edge),
        0 < n <= 0x100_0000,
    ensures
        ({
            let t = edge.times(Binary32::of_nat(n));
            let exact = edge.value() * n;
            &&& t.finite()
            &&& 0 <= t.value() <= n * Binary32::one_value()
            &&& 0 <= exact <= n * Binary32::one_value()
            &&& 0x100_0000 * abs_nat(t.value() - exact) <= exact
        }),
{
    lemma_simple_values();
    lemma_single_whole(n);
    let side = Binary32::of_nat(n);
    let one = Binary32::one_value() as int;
    let (v, m) = (edge.value(), n as int);
    assert(0 * one == 0) by (nonlinear_arith);
    assert(0 <= v * (m * one) <= (m * one) * one) by (nonlinear_arith)
        requires
            0 <= v <= one,
            m >= 0,
    ;
    lemma_single_times_between(edge, side, single(ZERO_BITS), side);
    lemma_single_times_near(edge, side);
    let t = edge.times(side).value();
    let exact = v * m;
    assert(0 <= exact <= m * one) by (nonlinear_arith)
        requires
            exact == v * m,
            0 <= v <= one,
            m >= 0,
    ;
    assert(t * one - v * (m * one) == (t - exact) * one) by (nonlinear_arith)
        requires
            exact == v * m,
    ;
    assert(v * (m * one) == exact * one) by (nonlinear_arith)
        requires
            exact == v * m,
    ;
    lemma_scaled_off(t - exact, exact, one);
}

/// The first cell of a region that starts at `edge`: the cell does not start behind the edge, nor
/// does it end before it. A dilation moves it back as far as the grid goes.
#[verifier::rlimit(40)]
pub proof fn lemma_first_cell(edge: Binary32, n: nat, dilation: nat)
    requires
        is_unit(edge),
        0 < n <= 0x4000,
    ensures
        ({
            let c = first_cell(edge, n, 0);
            let one = Binary32::one_value();
            let exact = edge.value() * n;
            &&& 0 <= c <= n
            &&& 256 * (c * one) <= 256 * exact + one
            &&& 256 * exact <= 256 * ((c + 1) * one) + one
            &&& first_cell(edge, n, dilation) == if c <= dilation {
                0
            } else {
                c - dilation
            }
        }),
{
    lemma_simple_values();
    lemma_margin();
    lemma_edge_place(edge, n);
    lemma_single_whole(n);
    lemma_single_whole(n + 1);
    let one = Binary32::one_value() as int;
    let t = edge.times(Binary32::of_nat(n));
    let margin = single(GRID_BOUNDARY_EPSILON_BITS);
    let place = t.plus(margin);
    let m = n as int;
    assert((m + 1) * one == m * one + one) by (nonlinear_arith);
    lemma_single_plus_between(t, margin, single(ZERO_BITS), Binary32::of_nat(n + 1));
    lemma_single_plus_near(t, margin);
    let v = place.value();
    assert(m * one <= 0x4000 * one) by (nonlinear_arith)
        requires
            m <= 0x4000,
            one > 0,
    ;
    let c = v / one;
    vstd::arithmetic::div_mod::lemma_fundamental_div_mod(v, one);
    assert(one * c == c * one && (c + 1) * one == c * one + one) by (nonlinear_arith);
    lemma_floor_within(v, one, m, t.value(), margin.value());
}

/// A number that was no more than `m` and moved up by less than a whole stays below `m + 1`.
proof fn lemma_floor_within(v: int, one: int, m: int, t: int, margin: int)
    requires
        one >= 0x100_0000_0000_0000,
        0 <= m <= 0x4000,
        0 <= t <= m * one,
        0 < 0x8_0000 * margin < one,
        0 <= v,
        0x100_0000 * abs_nat(v - (t + margin)) <= abs_nat(t + margin),
    ensures
        0 <= v / one <= m,
{
    assert(m * one <= 0x4000 * one) by (nonlinear_arith)
        requires
            m <= 0x4000,
            one > 0,
    ;
    assert(v < m * one + one);
    assert(0 <= v / one <= m) by (nonlinear_arith)
        requires
            0 <= v < m * one + one,
            one > 0,
    ;
}

/// The cell behind a region that ends at `edge`: the cell before it does not start behind the edge,
/// and the edge is not beyond it. A dilation moves it on as far as the grid goes.
#[verifier::rlimit(40)]
pub proof fn lemma_end_cell(edge: Binary32, n: nat, dilation: nat)
    requires
        is_unit(edge),
        0 < n <= 0x4000,
    ensures
        ({
            let c = end_cell(edge, n, 0);
            let one = Binary32::one_value();
            let exact = edge.value() * n;
            &&& 0 <= c <= n
            &&& 256 * exact <= 256 * (c * one) + one
            &&& 256 * ((c - 1) * one) <= 256 * exact + one
            &&& end_cell(edge, n, dilation) == if c + dilation >= n {
                n as int
            } else {
                c + dilation
            }
        }),
{
    lemma_simple_values();
    lemma_margin();
    lemma_edge_place(edge, n);
    lemma_single_whole(n);
    let one = Binary32::one_value() as int;
    let t = edge.times(Binary32::of_nat(n));
    let margin = single(GRID_BOUNDARY_EPSILON_BITS);
    let minus = margin.negated();
    let place = t.plus(minus);
    let m = n as int;
    lemma_single_plus_between(t, minus, minus, Binary32::of_nat(n));
    lemma_single_plus_near(t, minus);
    let v = place.value();
    assert(m * one <= 0x4000 * one) by (nonlinear_arith)
        requires
            m <= 0x4000,
            one > 0,
    ;
    let w = -v;
    let q = w / one;
    vstd::arithmetic::div_mod::lemma_fundamental_div_mod(w, one);
    let c = -q;
    assert(one * q == -(c * one) && (c - 1) * one == c * one - one) by (nonlinear_arith)
        requires
            c == -q,
    ;
    assert(0 <= c <= m) by (nonlinear_arith)
        requires
            c * one - one < v <= c * one,
            -one < v <= m * one,
            one > 0,
    ;
}

/// The cell `k` and the region between two edges lie clear of each other, by more than a part in
/// 256 of a cell.
pub open spec fn clear_of(low: Binary32, high: Binary32, n: nat, k: int) -> bool {
    let one = Binary32::one_value();
    ||| 256 * ((k + 1) * one) + one < 256 * (low.value() * n)
    ||| 256 * (high.value() * n) + one < 256 * (k * one)
}

/// The cell `k` and the region between two edges share more than a part in 256 of a cell, seen from
/// either edge.
pub open spec fn reaches_into(low: Binary32, high: Binary32, n: nat, k: int) -> bool {
    let one = Binary32::one_value();
    &&& 256 * (low.value() * n) + one < 256 * ((k + 1) * one)
    &&& 256 * (k * one) + one < 256 * (high.value() * n)
}

proof fn lemma_cells_along(low: Binary32, high: Binary32, n: nat, k: int)
    requires
        is_unit(low),
        is_unit(high),
        0 < n <= 0x4000,
        0 <= k < n,
    ensures
        reaches_into(low, high, n, k) ==> first_cell(low, n, 0) <= k < end_cell(high, n, 0),
        clear_of(low, high, n, k) ==> !(first_cell(low, n, 0) <= k < end_cell(high, n, 0)),
{
    lemma_simple_values();
    lemma_first_cell(low, n, 0);
    lemma_end_cell(high, n, 0);
    let one = Binary32::one_value() as int;
    let (a, b) = (first_cell(low, n, 0), end_cell(high, n, 0));
    if a > k {
        assert((k + 1) * one <= a * one) by (nonlinear_arith)
            requires
                k + 1 <= a,
                one > 0,
        ;
    } else {
        assert((a + 1) * one <= (k + 1) * one) by (nonlinear_arith)
            requires
                a <= k,
                one > 0,
        ;
    }
    if b <= k {
        assert(b * one <= k * one) by (nonlinear_arith)
            requires
                b <= k,
                one > 0,
        ;
    } else {
        assert(k * one <= (b - 1) * one) by (nonlinear_arith)
            requires
                k <= b - 1,
                one > 0,
        ;
    }
}

/// The corners of a region lie in the image.
pub open spec fn in_image(rect: SparseReadoutRect) -> bool {
    is_unit(rect.x0) && is_unit(rect.y0) && is_unit(rect.x1) && is_unit(rect.y1)
}

/// A region selects the cells that it touches: each cell that it reaches into, and none that it is
/// clear of.
pub proof fn lemma_region_selects_touched(
    rect: SparseReadoutRect,
    grid: SparseReadoutGrid,
    row: int,
    col: int,
)
    requires
        in_image(rect),
        !rect.empty(),
        0 < grid.height <= 0x4000,
        0 < grid.width <= 0x4000,
        0 <= row < grid.height,
        0 <= col < grid.width,
    ensures
        ({
            let selected = match rect_cells(rect, grid, 0) {
                Some((r0, r1, c0, c1)) => r0 <= row < r1 && c0 <= col < c1,
                None => false,
            };
            let (h, w) = (grid.height as nat, grid.width as nat);
            &&& reaches_into(rect.y0, rect.y1, h, row) && reaches_into(rect.x0, rect.x1, w, col)
                ==> selected
            &&& clear_of(rect.y0, rect.y1, h, row) || clear_of(rect.x0, rect.x1, w, col)
                ==> !selected
        }),
{
    lemma_cells_along(rect.y0, rect.y1, grid.height as nat, row);
    lemma_cells_along(rect.x0, rect.x1, grid.width as nat, col);
}

/// A dilated region selects what the region selects and `dilation` more cells on each side, as far
/// as the grid goes.
pub proof fn lemma_dilation_grows(rect: SparseReadoutRect, grid: SparseReadoutGrid, dilation: nat)
    requires
        in_image(rect),
        grid.height <= 0x4000,
        grid.width <= 0x4000,
        rect_cells(rect, grid, 0) is Some,
    ensures
        ({
            let (r0, r1, c0, c1) = rect_cells(rect, grid, 0)->0;
            let (h, w) = (grid.height as int, grid.width as int);
            rect_cells(rect, grid, dilation) == Some(
                (
                    if r0 <= dilation {
                        0
                    } else {
                        r0 - dilation
                    },
                    if r1 + dilation >= h {
                        h
                    } else {
                        r1 + dilation
                    },
                    if c0 <= dilation {
                        0
                    } else {
                        c0 - dilation
                    },
                    if c1 + dilation >= w {
                        w
                    } else {
                        c1 + dilation
                    },
                ),
            )
        }),
{
    lemma_first_cell(rect.y0, grid.height as nat, dilation);
    lemma_end_cell(rect.y1, grid.height as nat, dilation);
    lemma_first_cell(rect.x0, grid.width as nat, dilation);
    lemma_end_cell(rect.x1, grid.width as nat, dilation);
}

/// The cell of a row and a column is among the cells that a region selects.
pub open spec fn selects_cell(
    rect: SparseReadoutRect,
    grid: SparseReadoutGrid,
    dilation: nat,
    row: int,
    col: int,
) -> bool {
    match rect_cells(rect, grid, dilation) {
        Some((r0, r1, c0, c1)) => r0 <= row < r1 && c0 <= col < c1,
        None => false,
    }
}

/// The tokens of a region are the cells that it selects, counted row by row behind `base`, and no
/// others.
pub proof fn lemma_region_tokens(
    rect: SparseReadoutRect,
    grid: SparseReadoutGrid,
    dilation: nat,
    base: nat,
    row: int,
    col: int,
)
    requires
        0 <= row < grid.height,
        0 <= col < grid.width,
        base + grid.cells() <= usize::MAX,
    ensures
        rect_tokens(rect, grid, dilation, base).contains(
            (base + row * grid.width + col) as usize,
        ) <==> selects_cell(rect, grid, dilation, row, col),
{
    let tokens = rect_tokens(rect, grid, dilation, base);
    let (h, w) = (grid.height as int, grid.width as int);
    let token = base + row * w + col;
    lemma_cell_below(row, col, h, w);
    match rect_cells(rect, grid, dilation) {
        Some((r0, r1, c0, c1)) => {
            let cols = c1 - c0;
            if r0 <= row < r1 && c0 <= col < c1 {
                let i = (row - r0) * cols + (col - c0);
                assert(0 <= i < (r1 - r0) * cols) by (nonlinear_arith)
                    requires
                        i == (row - r0) * cols + (col - c0),
                        0 <= row - r0,
                        row + 1 <= r1,
                        0 <= col - c0 < cols,
                ;
                vstd::arithmetic::div_mod::lemma_fundamental_div_mod_converse(
                    i,
                    cols,
                    row - r0,
                    col - c0,
                );
                assert(tokens[i] == token as usize);
            }
            if tokens.contains(token as usize) {
                let i = choose|i: int| 0 <= i < tokens.len() && tokens[i] == token as usize;
                let (q, r) = (i / cols, i % cols);
                vstd::arithmetic::div_mod::lemma_fundamental_div_mod(i, cols);
                assert(0 <= q < r1 - r0) by (nonlinear_arith)
                    requires
                        i == cols * q + r,
                        0 <= r < cols,
                        0 <= i < (r1 - r0) * cols,
                ;
                let (row2, col2) = (r0 + q, c0 + r);
                lemma_cell_below(row2, col2, h, w);
                assert(base + row2 * w + c0 + r == base + row2 * w + col2);
                assert(row2 * w + col2 == row * w + col);
                vstd::arithmetic::div_mod::lemma_fundamental_div_mod_converse(
                    row * w + col,
                    w,
                    row,
                    col,
                );
                vstd::arithmetic::div_mod::lemma_fundamental_div_mod_converse(
                    row2 * w + col2,
                    w,
                    row2,
                    col2,
                );
            }
        },
        None => {},
    }
}

proof fn lemma_cell_below(row: int, col: int, h: int, w: int)
    requires
        0 <= row < h,
        0 <= col < w,
    ensures
        0 <= row * w + col < h * w,
        0 <= row * w,
{
    assert(row * w + w <= h * w && 0 <= row * w) by (nonlinear_arith)
        requires
            0 <= row,
            row + 1 <= h,
            0 <= w,
    ;
}

/// What is added to a list comes from the candidates, in their order.
proof fn lemma_new_from_candidates(
    tokens: Seq<usize>,
    candidates: Seq<usize>,
    n: nat,
    limit: Option<usize>,
    token: usize,
)
    requires
        n <= candidates.len(),
    ensures
        with_new(tokens, candidates, n, limit).contains(token) ==> tokens.contains(token)
            || candidates.contains(token),
        tokens.contains(token) ==> with_new(tokens, candidates, n, limit).contains(token),
        !is_full(with_new(tokens, candidates, n, limit), limit) && candidates.take(
            n as int,
        ).contains(token) ==> with_new(tokens, candidates, n, limit).contains(token),
        with_new(tokens, candidates, n, limit).len() >= tokens.len(),
    decreases n,
{
    if n > 0 {
        let m = (n - 1) as nat;
        lemma_new_from_candidates(tokens, candidates, m, limit, token);
        let before = with_new(tokens, candidates, m, limit);
        let last = candidates[n - 1];
        let after = with_new(tokens, candidates, n, limit);
        if before.contains(token) {
            let j = choose|j: int| 0 <= j < before.len() && before[j] == token;
            assert(after[j] == token);
        }
        if after.contains(token) && !before.contains(token) {
            let j = choose|j: int| 0 <= j < after.len() && after[j] == token;
            assert(candidates[n - 1] == token);
        }
        if !is_full(after, limit) && candidates.take(n as int).contains(token) {
            let j = choose|j: int|
                0 <= j < candidates.take(n as int).len() && candidates.take(n as int)[j] == token;
            if j < m {
                assert(candidates.take(m as int)[j] == token);
            } else if !before.contains(last) {
                assert(after[before.len() as int] == token);
            }
        }
    }
}

/// A token is selected only where one of the regions selects its cell, and wherever one does, unless
/// the limit is reached.
pub proof fn lemma_selected_where_touched(
    rects: Seq<SparseReadoutRect>,
    k: nat,
    grid: SparseReadoutGrid,
    dilation: nat,
    base: nat,
    limit: Option<usize>,
    tokens: Seq<usize>,
    row: int,
    col: int,
)
    requires
        k <= rects.len(),
        0 <= row < grid.height,
        0 <= col < grid.width,
        base + grid.cells() <= usize::MAX,
    ensures
        ({
            let token = (base + row * grid.width + col) as usize;
            let selected = rects_selected(rects, k, grid, dilation, base, limit, tokens);
            let touched = exists|i: int|
                0 <= i < k && #[trigger] selects_cell(rects[i], grid, dilation, row, col);
            &&& selected.contains(token) ==> tokens.contains(token) || touched
            &&& tokens.contains(token) ==> selected.contains(token)
            &&& !is_full(selected, limit) && touched ==> selected.contains(token)
            &&& selected.len() >= tokens.len()
        }),
    decreases k,
{
    if k > 0 {
        let token = (base + row * grid.width + col) as usize;
        let m = (k - 1) as nat;
        lemma_selected_where_touched(
            rects,
            m,
            grid,
            dilation,
            base,
            limit,
            tokens,
            row,
            col,
        );
        let before = rects_selected(rects, m, grid, dilation, base, limit, tokens);
        let candidates = rect_tokens(rects[k - 1], grid, dilation, base);
        lemma_region_tokens(rects[k - 1], grid, dilation, base, row, col);
        lemma_new_from_candidates(before, candidates, candidates.len(), limit, token);
        assert(candidates.take(candidates.len() as int) =~= candidates);
        assert(selects_cell(rects[k - 1], grid, dilation, row, col) ==> candidates.contains(token));
    }
}

/// Indices that are spread over `dense` are as many as asked for, within what there is, and lie as
/// close to even steps as whole numbers can: each within one half of its place.
pub proof fn lemma_spread_evenly(dense: nat, keep: nat, i: int)
    requires
        0 < dense <= usize::MAX,
        0 <= i < spread_indices(dense, keep).len(),
    ensures
        spread_indices(dense, keep).len() == if keep == 0 {
            1
        } else if keep <= dense {
            keep
        } else {
            dense
        },
        keep >= dense ==> spread_indices(dense, keep)[i] == i,
        keep < dense ==> ({
            let n = spread_indices(dense, keep).len();
            2 * abs_nat(n * spread_indices(dense, keep)[i] - i * (dense - 1)) <= n
        }),
        i > 0 ==> spread_indices(dense, keep)[i - 1] < spread_indices(dense, keep)[i],
        spread_indices(dense, keep)[i] < dense,
{
    let n = spread_indices(dense, keep).len() as int;
    let last = dense - 1;
    if n != dense {
        let a = i * last + n / 2;
        let q = a / n;
        vstd::arithmetic::div_mod::lemma_fundamental_div_mod(a, n);
        assert(0 <= q < dense) by (nonlinear_arith)
            requires
                a == n * q + a % n,
                0 <= a % n < n,
                a == i * last + n / 2,
                0 <= i,
                i + 1 <= n,
                0 <= last,
                last + 1 == dense,
                n >= 1,
        ;
        if i > 0 {
            let b = (i - 1) * last + n / 2;
            let r = b / n;
            assert(i * last == (i - 1) * last + last && (i - 1) * last >= 0) by (nonlinear_arith)
                requires
                    i >= 1,
                    last >= 0,
            ;
            vstd::arithmetic::div_mod::lemma_fundamental_div_mod(b, n);
            assert(0 <= r < q) by (nonlinear_arith)
                requires
                    a == n * q + a % n,
                    0 <= a % n < n,
                    b == n * r + b % n,
                    0 <= b % n < n,
                    a == b + last,
                    last >= n,
                    b >= 0,
                    n >= 1,
            ;
        }
    }
}

/// Tokens of another bin are neither selected nor dropped.
proof fn lemma_other_tokens_stay(
    rects: Seq<SparseReadoutRect>,
    k: nat,
    grid: SparseReadoutGrid,
    dilation: nat,
    base: nat,
    limit: Option<usize>,
    tokens: Seq<usize>,
    token: usize,
)
    requires
        k <= rects.len(),
        base + grid.cells() <= usize::MAX,
        token < base || token >= base + grid.cells(),
    ensures
        ({
            let selected = rects_selected(rects, k, grid, dilation, base, limit, tokens);
            &&& selected.contains(token) <==> tokens.contains(token)
            &&& selected.len() >= tokens.len()
        }),
    decreases k,
{
    if k > 0 {
        let m = (k - 1) as nat;
        lemma_other_tokens_stay(rects, m, grid, dilation, base, limit, tokens, token);
        let before = rects_selected(rects, m, grid, dilation, base, limit, tokens);
        let candidates = rect_tokens(rects[k - 1], grid, dilation, base);
        lemma_new_from_candidates(before, candidates, candidates.len(), limit, token);
        if candidates.contains(token) {
            let i = choose|i: int| 0 <= i < candidates.len() && candidates[i] == token;
            let (r0, r1, c0, c1) = rect_cells(rects[k - 1], grid, dilation)->0;
            let cols = c1 - c0;
            let (q, r) = (i / cols, i % cols);
            vstd::arithmetic::div_mod::lemma_fundamental_div_mod(i, cols);
            assert(0 <= q < r1 - r0) by (nonlinear_arith)
                requires
                    i == cols * q + r,
                    0 <= r < cols,
                    0 <= i < (r1 - r0) * cols,
            ;
            lemma_cell_below(r0 + q, c0 + r, grid.height as int, grid.width as int);
        }
    }
}

/// The frame `f` selects the cell of a row and a column of its bin.
pub open spec fn frame_selects(
    frame: Seq<SparseReadoutRect>,
    grid: SparseVideoReadoutGrid,
    dilation: nat,
    row: int,
    col: int,
) -> bool {
    exists|i: int|
        0 <= i < frame.len() && #[trigger] selects_cell(
            frame[i],
            bin_grid(grid),
            dilation,
            row,
            col,
        )
}

/// A token of a video grid is selected only where a region of a frame of its bin selects its cell,
/// and wherever one does, unless the limit is reached. The frame `f` belongs to the bin
/// `f / tubelet_size`.
#[verifier::rlimit(40)]
pub proof fn lemma_video_selected_where_touched(
    frames: Seq<Seq<SparseReadoutRect>>,
    k: nat,
    grid: SparseVideoReadoutGrid,
    options: SparseVideoReadoutOptions,
    bin: int,
    row: int,
    col: int,
)
    requires
        k <= frames.len(),
        k <= grid.temporal_bins * options.tubelet_size,
        options.tubelet_size > 0,
        grid.cells() <= usize::MAX,
        0 <= bin < grid.temporal_bins,
        0 <= row < grid.height,
        0 <= col < grid.width,
    ensures
        ({
            let token = grid.index_of(bin, row, col) as usize;
            let selected = frames_selected(frames, k, grid, options);
            let touched = exists|f: int|
                0 <= f < k && bin * options.tubelet_size <= f < (bin + 1) * options.tubelet_size
                    && #[trigger] frame_selects(
                    frames[f],
                    grid,
                    options.dilation as nat,
                    row,
                    col,
                );
            &&& selected.contains(token) ==> touched
            &&& touched && !is_full(selected, Some(video_limit(grid, options)))
                ==> selected.contains(token)
        }),
    decreases k,
{
    if k > 0 {
        let token = grid.index_of(bin, row, col) as usize;
        let m = (k - 1) as nat;
        lemma_video_selected_where_touched(frames, m, grid, options, bin, row, col);
        let before = frames_selected(frames, m, grid, options);
        let after = frames_selected(frames, k, grid, options);
        let limit = Some(video_limit(grid, options));
        let t = options.tubelet_size as int;
        let f = k - 1;
        let own = f / t;
        let c = grid.bin_cells() as int;
        let (h, w) = (grid.height as int, grid.width as int);
        vstd::arithmetic::div_mod::lemma_fundamental_div_mod(f, t);
        assert(own * t <= f < (own + 1) * t && 0 <= own < grid.temporal_bins) by (nonlinear_arith)
            requires
                f == t * own + f % t,
                0 <= f % t < t,
                0 <= f < grid.temporal_bins * t,
        ;
        lemma_cell_below(row, col, h, w);
        assert((bin * h + row) * w + col == bin * (h * w) + (row * w + col)) by (nonlinear_arith);
        let total = grid.temporal_bins as int;
        assert(own * c >= 0 && own * c + c <= total * c) by (nonlinear_arith)
            requires
                0 <= own,
                own + 1 <= total,
                c >= 0,
        ;
        assert(bin * c >= 0 && bin * c + c <= total * c) by (nonlinear_arith)
            requires
                0 <= bin,
                bin + 1 <= total,
                c >= 0,
        ;
        if own == bin {
            lemma_selected_where_touched(
                frames[f],
                frames[f].len(),
                bin_grid(grid),
                options.dilation as nat,
                (own as nat * grid.bin_cells()),
                limit,
                before,
                row,
                col,
            );
            assert(token == ((own as nat * grid.bin_cells()) + row * bin_grid(grid).width
                + col) as usize);
            if after.contains(token) && !before.contains(token) {
                assert(frame_selects(frames[f], grid, options.dilation as nat, row, col));
            }
        } else {
            assert(token < own * c || token >= own * c + c) by (nonlinear_arith)
                requires
                    token == bin * c + (row * w + col),
                    0 <= row * w + col < c,
                    own != bin,
                    c > 0,
            {
                if own < bin {
                    assert((own + 1) * c <= bin * c);
                } else {
                    assert((bin + 1) * c <= own * c);
                }
            }
            lemma_other_tokens_stay(
                frames[f],
                frames[f].len(),
                bin_grid(grid),
                options.dilation as nat,
                (own as nat * grid.bin_cells()),
                limit,
                before,
                token,
            );
            assert(!(bin * t <= f < (bin + 1) * t)) by (nonlinear_arith)
                requires
                    own * t <= f < (own + 1) * t,
                    own != bin,
                    t > 0,
            {
                if own < bin {
                    assert((own + 1) * t <= bin * t);
                } else {
                    assert((bin + 1) * t <= own * t);
                }
            }
        }
    }
}

/// The rectangle of a token is its cell: its sides lie where the cell of the token's row and column
/// begins and ends, up to a last place.
#[verifier::rlimit(40)]
pub proof fn lemma_token_rect_is_cell(grid: SparseReadoutGrid, token: nat)
    requires
        0 < grid.height <= 0x4000,
        0 < grid.width <= 0x4000,
        token < grid.cells(),
    ensures
        ({
            let (h, w) = (grid.height as nat, grid.width as nat);
            let (row, col) = (token / w, token % w);
            let rect = grid.spec_token_rect(token)->0;
            &&& grid.spec_token_rect(token) is Some
            &&& row < h
            &&& row * w + col == token
            &&& edge_at(rect.x0, col, w)
            &&& edge_at(rect.x1, col + 1, w)
            &&& edge_at(rect.y0, row, h)
            &&& edge_at(rect.y1, row + 1, h)
        }),
{
    let (h, w) = (grid.height as nat, grid.width as nat);
    let (row, col) = (token / w, token % w);
    vstd::arithmetic::div_mod::lemma_fundamental_div_mod(token as int, w as int);
    let (q, r) = (row as int, col as int);
    assert(q < h && q * w == w * q) by (nonlinear_arith)
        requires
            token == w * q + r,
            0 <= r < w,
            token < h * w,
    ;
    lemma_edge_at(col, w);
    lemma_edge_at(col + 1, w);
    lemma_edge_at(row, h);
    lemma_edge_at(row + 1, h);
}

/// The edge lies `k` cells into the unit interval, of which there are `n`.
pub open spec fn edge_at(edge: Binary32, k: nat, n: nat) -> bool {
    &&& is_unit(edge)
    &&& 0x100_0000 * abs_nat(edge.value() * n - k * Binary32::one_value()) <= k
        * Binary32::one_value()
}

proof fn lemma_edge_at(k: nat, n: nat)
    requires
        k <= n,
        0 < n <= 0x4000,
    ensures
        edge_at(Binary32::of_nat(k).over(Binary32::of_nat(n)), k, n),
{
    lemma_simple_values();
    lemma_single_whole(k);
    let one = Binary32::one_value() as int;
    let (a, b) = (k as int, n as int);
    assert(0 <= a * one <= b * one) by (nonlinear_arith)
        requires
            0 <= a <= b,
            one > 0,
    ;
    lemma_over_whole_near(Binary32::of_nat(k), n);
    let r = Binary32::of_nat(k).over(Binary32::of_nat(n)).value();
    let d = r * b - a * one;
    if a == 0 {
        lemma_single_whole(n);
        let zero = single(ZERO_BITS);
        assert(0 * (b * one) == 0 && 0 * one == 0) by (nonlinear_arith);
        assert(b * one > 0) by (nonlinear_arith)
            requires
                b > 0,
                one > 0,
        ;
        lemma_single_over_between(Binary32::of_nat(k), Binary32::of_nat(n), zero, zero);
        assert(0 * b == 0) by (nonlinear_arith);
    } else {
        assert(a * one >= one) by (nonlinear_arith)
            requires
                a >= 1,
                one > 0,
        ;
    }
}

/// The regions of a frame's fixations are those of the fixations above the confidence threshold
/// that have an area, no more of them than the limit, and all of them where there is none.
pub proof fn lemma_point_regions(points: Seq<FixationPoint>, k: nat, options: SparseReadoutOptions)
    requires
        k <= points.len(),
    ensures
        ({
            let rects = point_rects(points, k, options);
            &&& forall|j: int|
                0 <= j < rects.len() ==> is_region_of(#[trigger] rects[j], points, k, options)
            &&& options.max_fixations_per_frame is None ==> forall|i: int|
                0 <= i < k && is_projected(#[trigger] points[i], options) ==> rects.contains(
                    point_rect(points[i], options),
                )
            &&& options.max_fixations_per_frame matches Some(limit) ==> rects.len() <= limit
        }),
    decreases k,
{
    if k > 0 {
        lemma_point_regions(points, (k - 1) as nat, options);
        let before = point_rects(points, (k - 1) as nat, options);
        let rects = point_rects(points, k, options);
        assert forall|j: int| 0 <= j < rects.len() implies is_region_of(
            #[trigger] rects[j],
            points,
            k,
            options,
        ) by {
            if j < before.len() {
                assert(is_region_of(before[j], points, (k - 1) as nat, options));
                let i = choose|i: int|
                    0 <= i < k - 1 && before[j] == point_rect(#[trigger] points[i], options)
                        && is_projected(points[i], options);
                assert(rects[j] == point_rect(points[i], options));
            } else {
                assert(rects[j] == point_rect(points[k - 1], options));
            }
        }
        if options.max_fixations_per_frame is None {
            assert forall|i: int|
                0 <= i < k && is_projected(#[trigger] points[i], options) implies rects.contains(
                point_rect(points[i], options),
            ) by {
                if i < k - 1 {
                    assert(before.contains(point_rect(points[i], options)));
                    let j = choose|j: int|
                        0 <= j < before.len() && before[j] == point_rect(points[i], options);
                    assert(rects[j] == point_rect(points[i], options));
                } else {
                    assert(rects[before.len() as int] == point_rect(points[i], options));
                }
            }
        }
    }
}

/// The region is that of one of the first `k` fixations that are projected.
pub open spec fn is_region_of(
    rect: SparseReadoutRect,
    points: Seq<FixationPoint>,
    k: nat,
    options: SparseReadoutOptions,
) -> bool {
    exists|i: int|
        0 <= i < k && rect == point_rect(#[trigger] points[i], options) && is_projected(
            points[i],
            options,
        )
}

/// The fixation is above the confidence threshold and its region has an area.
pub open spec fn is_projected(point: FixationPoint, options: SparseReadoutOptions) -> bool {
    unit_clamped(options.confidence_threshold).lt(point.confidence) && !point_rect(
        point,
        options,
    ).empty()
}

/// A region has its corners in order, and those that were given where they lie in the image.
pub proof fn lemma_region_corners(x0: Binary32, y0: Binary32, x1: Binary32, y1: Binary32)
    requires
        is_unit(x0),
        is_unit(y0),
        is_unit(x1),
        is_unit(y1),
    ensures
        ({
            let rect = SparseReadoutRect::spec_new(x0, y0, x1, y1);
            &&& in_image(rect)
            &&& rect.x0.value() <= rect.x1.value()
            &&& rect.y0.value() <= rect.y1.value()
            &&& rect.x0.value() + rect.x1.value() == x0.value() + x1.value()
            &&& rect.y0.value() + rect.y1.value() == y0.value() + y1.value()
            &&& rect.x0.value() == x0.value() || rect.x0.value() == x1.value()
            &&& rect.y0.value() == y0.value() || rect.y0.value() == y1.value()
            &&& rect.empty() <==> x0.value() == x1.value() || y0.value() == y1.value()
        }),
{
    lemma_simple_values();
    let (lo, hi) = (single(ZERO_BITS), single(ONE_BITS));
    lemma_single_ordered(x0, x1);
    lemma_single_ordered(x1, x0);
    lemma_single_ordered(y0, y1);
    lemma_single_ordered(y1, y0);
    lemma_clamped(x0, lo, hi);
    lemma_clamped(x1, lo, hi);
    lemma_clamped(y0, lo, hi);
    lemma_clamped(y1, lo, hi);
    let rect = SparseReadoutRect::spec_new(x0, y0, x1, y1);
    lemma_single_ordered(rect.x1, rect.x0);
    lemma_single_ordered(rect.y1, rect.y0);
}

/// The margin makes up for what rounding takes from a cell's own edge: on grids of up to eight cells
/// a side, the region that begins where a cell begins has it as its first cell, and the one that
/// ends where it ends has it as its last.
#[verifier::rlimit(40)]
proof fn lemma_edge_is_own(k: nat, n: nat)
    requires
        k <= n,
        0 < n <= 8,
    ensures
        first_cell(Binary32::of_nat(k).over(Binary32::of_nat(n)), n, 0) == k,
        end_cell(Binary32::of_nat(k).over(Binary32::of_nat(n)), n, 0) == k,
{
    lemma_simple_values();
    lemma_margin_covers();
    lemma_margin();
    lemma_edge_at(k, n);
    let edge = Binary32::of_nat(k).over(Binary32::of_nat(n));
    lemma_edge_place(edge, n);
    lemma_single_whole(k);
    lemma_single_whole(k + 1);
    let one = Binary32::one_value() as int;
    let t = edge.times(Binary32::of_nat(n));
    let margin = single(GRID_BOUNDARY_EPSILON_BITS);
    let minus = margin.negated();
    let c = k as int;
    let exact = edge.value() * n;
    assert((c + 1) * one == c * one + one && (c - 1) * one == c * one - one) by (nonlinear_arith);
    assert(0 <= c * one <= 8 * one) by (nonlinear_arith)
        requires
            0 <= c <= 8,
            one > 0,
    ;
    assert(0x100_0000 * abs_nat(t.value() - c * one) <= 0x100_0000 * margin.value()) by {
        assert(0x100_0000 * abs_nat(exact - c * one) <= 8 * one);
        assert(0x100_0000 * abs_nat(t.value() - exact) <= exact);
        assert(0x100_0000 * exact <= 0x100_0000 * (8 * one) + 8 * one);
        assert(0x100_0000 * (0x100_0000 * abs_nat(t.value() - exact)) <= 0x100_0000 * (8 * one)
            + 8 * one);
    }
    lemma_single_plus_between(t, margin, Binary32::of_nat(k), Binary32::of_nat(k + 1));
    lemma_single_plus_near(t, margin);
    let v = t.plus(margin).value();
    assert(v < c * one + one);
    vstd::arithmetic::div_mod::lemma_fundamental_div_mod_converse(v, one, c, v - c * one);
    let u = t.plus(minus).value();
    if k == 0 {
        lemma_single_plus_between(t, minus, minus, Binary32::of_nat(k));
    } else {
        lemma_single_whole((k - 1) as nat);
        lemma_single_plus_between(
            t,
            minus,
            Binary32::of_nat((k - 1) as nat),
            Binary32::of_nat(k),
        );
    }
    lemma_single_plus_near(t, minus);
    assert(c * one - one < u <= c * one);
    assert((-c) * one == -(c * one)) by (nonlinear_arith);
    vstd::arithmetic::div_mod::lemma_fundamental_div_mod_converse(-u, one, -c, c * one - u);
}

proof fn lemma_margin_covers()
    ensures
        0x1000_0000_0000 * single(GRID_BOUNDARY_EPSILON_BITS).value() >= 0x100_0000
            * Binary32::one_value() + 32 * Binary32::one_value(),
{
    let f = Binary32::format();
    f.lemma_constants();
    let m = 0x3586_37bdnat;
    assert(f.significand(m) == 0x86_37bd);
    assert(f.shift(m) == 106);
    lemma_pow2_adds(43, 106);
    lemma2_to64();
    lemma2_to64_rest();
    lemma_pow2_pos(106);
    let (p, q) = (pow2(106) as int, pow2(149) as int);
    assert(0x1000_0000_0000 * (0x86_37bd * p) >= 0x100_0000 * q + 32 * q) by (nonlinear_arith)
        requires
            q == 0x800_0000_0000 * p,
            p > 0,
    ;
}

/// On grids of up to eight cells a side, the rectangle of a cell selects that cell and no other.
#[verifier::rlimit(40)]
proof fn lemma_cell_rect_selects_cell(grid: SparseReadoutGrid, row: nat, col: nat)
    requires
        row < grid.height <= 8,
        col < grid.width <= 8,
    ensures
        rect_cells(grid.cell_rect(row, col), grid, 0) == Some(
            (row as int, row as int + 1, col as int, col as int + 1),
        ),
{
    let (h, w) = (grid.height as nat, grid.width as nat);
    let rect = grid.cell_rect(row, col);
    assert(first_cell(rect.x0, w, 0) == col && end_cell(rect.x1, w, 0) == col + 1) by {
        lemma_edge_is_own(col, w);
        lemma_edge_is_own(col + 1, w);
    }
    assert(first_cell(rect.y0, h, 0) == row && end_cell(rect.y1, h, 0) == row + 1) by {
        lemma_edge_is_own(row, h);
        lemma_edge_is_own(row + 1, h);
    }
    assert(!rect.empty()) by {
        lemma_edge_at(col, w);
        lemma_edge_at(col + 1, w);
        lemma_edge_at(row, h);
        lemma_edge_at(row + 1, h);
        lemma_edges_apart(rect.x0, rect.x1, col, w);
        lemma_edges_apart(rect.y0, rect.y1, row, h);
    }
}

/// On grids of up to eight cells a side, the rectangle of a token selects that token and no other.
#[verifier::rlimit(40)]
pub proof fn lemma_token_rect_selects_token(grid: SparseReadoutGrid, token: nat)
    requires
        0 < grid.height <= 8,
        0 < grid.width <= 8,
        token < grid.cells(),
    ensures
        rect_tokens(grid.spec_token_rect(token)->0, grid, 0, 0) == seq![token as usize],
{
    let w = grid.width as nat;
    let (row, col) = (token / w, token % w);
    let rect = grid.cell_rect(row, col);
    let tokens = rect_tokens(rect, grid, 0, 0);
    assert(row < grid.height && row * w + col == token) by {
        lemma_token_rect_is_cell(grid, token);
    }
    assert(rect_cells(rect, grid, 0) == Some(
        (row as int, row as int + 1, col as int, col as int + 1),
    )) by {
        lemma_cell_rect_selects_cell(grid, row, col);
    }
    assert(1 * 1 == 1) by (nonlinear_arith);
    assert(tokens.len() == 1);
    assert(tokens[0] == token as usize);
    assert(tokens =~= seq![token as usize]);
}

proof fn lemma_edges_apart(low: Binary32, high: Binary32, k: nat, n: nat)
    requires
        edge_at(low, k, n),
        edge_at(high, k + 1, n),
        k < n <= 8,
    ensures
        !high.le(low),
{
    lemma_simple_values();
    let one = Binary32::one_value() as int;
    let (a, b) = (low.value(), high.value());
    let (c, m) = (k as int, n as int);
    assert((c + 1) * one == c * one + one && 0 <= c * one <= 8 * one) by (nonlinear_arith)
        requires
            0 <= c <= 8,
            one > 0,
    ;
    assert(a * m < b * m);
    assert(a < b) by (nonlinear_arith)
        requires
            a * m < b * m,
            m > 0,
    ;
    lemma_single_ordered(high, low);
}

/// The region of a fixation lies about its centre, half of its cell's extent times the options'
/// scale to each side, and is cut to the image.
pub proof fn lemma_region_about_fixation(point: FixationPoint, options: SparseReadoutOptions)
    requires
        is_unit(point.x),
        is_unit(point.y),
        point.width.finite(),
        point.height.finite(),
        point.scale.finite(),
        options.fixation_scale.finite(),
        single(MIN_CELL_EXTENT_BITS).value() <= options.fixation_scale.value() <= 0x10_0000
            * Binary32::one_value(),
    ensures
        ({
            let rect = point_rect(point, options);
            let scale = options.fixation_scale;
            let across = FixationPoint::half_extent(point.spec_cell_width(), scale);
            let down = FixationPoint::half_extent(point.spec_cell_height(), scale);
            &&& in_image(rect)
            &&& spans(point.x, across, rect.x0, rect.x1)
            &&& spans(point.y, down, rect.y0, rect.y1)
        }),
{
    lemma_bounds_about_centre(point, options.fixation_scale);
    let least = single(EPSILON_BITS);
    lemma_least_step();
    lemma_single_ordered(options.fixation_scale, least);
    assert(options.fixation_scale.larger(least) == options.fixation_scale);
    let bounds = point.spec_scaled_bounds(options.fixation_scale);
    lemma_region_corners(bounds.x_min, bounds.y_min, bounds.x_max, bounds.y_max);
}

proof fn lemma_least_step()
    ensures
        single(EPSILON_BITS).finite(),
        single(EPSILON_BITS).value() < single(MIN_CELL_EXTENT_BITS).value(),
{
    let f = Binary32::format();
    f.lemma_constants();
    crate::nearness::lemma_units_ordered(f, 0x3400_0000, 0x3586_37bd);
}

} // verus!
