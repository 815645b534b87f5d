//! Where a fixation lies.
//!
//! A fixation stands for a cell of a grid or for a spot of a tile. It lies in that cell, and in that
//! tile, wherever the sides are whole numbers that single precision can tell apart.
use crate::format::abs_nat;
use crate::ieee::Binary32;
use crate::layout::{scale_of, token_point, AutoGazeScaleTokenLayout};
use crate::nearness::{
    lemma_single_held, lemma_single_ordered, lemma_single_over_between, lemma_single_over_near,
    lemma_single_plus_between, lemma_single_plus_near, lemma_single_times_between,
    lemma_single_times_near, lemma_single_whole,
};
use crate::patch_diff::{cell_fixation, grid_middle, AutoGazePatchDiffConfig, ScoredCell};
use crate::stitch::{
    cell_middle, cell_of, frame_extent, frame_position, grid_of, grid_point, overlapping_point,
};
use crate::tiles::{AutoGazeTile, AutoGazeTileLayout};
use crate::trace::{
    single, unit_clamped, FixationPoint, HALF_BITS, MIN_CELL_EXTENT_BITS, ONE_BITS, ZERO_BITS,
};
use vstd::arithmetic::power2::{
    lemma2_to64, lemma2_to64_rest, lemma_pow2_adds, lemma_pow2_pos, lemma_pow2_unfold, pow2,
};
use vstd::prelude::*;

verus! {

/// The position lies in the cell `index` of `grid` cells along the unit interval, and in the middle
/// half of that cell.
pub open spec fn in_middle_of_cell(position: Binary32, index: nat, grid: nat) -> bool {
    let one = Binary32::one_value();
    &&& position.finite()
    &&& (4 * index + 1) * one <= 4 * (position.value() * grid) <= (4 * index + 3) * one
}

pub(crate) proof fn lemma_simple_values()
    ensures
        single(ZERO_BITS).finite(),
        single(ZERO_BITS).value() == 0,
        single(HALF_BITS).finite(),
        2 * single(HALF_BITS).value() == Binary32::one_value(),
        single(HALF_BITS).value() == pow2(148),
        single(ONE_BITS).finite(),
        single(ONE_BITS).value() == Binary32::one_value(),
        Binary32::one_value() >= 0x100_0000_0000_0000,
        Binary32::one_value() == 2 * pow2(148),
{
    let f = Binary32::format();
    f.lemma_constants();
    assert(0 * pow2(0) == 0) by (nonlinear_arith);
    lemma2_to64();
    lemma2_to64_rest();
    lemma_pow2_adds(23, 125);
    lemma_pow2_adds(23, 126);
    lemma_pow2_unfold(149);
    lemma_pow2_adds(56, 93);
    lemma_pow2_pos(93);
    assert(f.significand(0x3f00_0000) == 0x80_0000);
    assert(f.shift(0x3f00_0000) == 125);
    assert(f.significand(0x3f80_0000) == 0x80_0000);
    assert(f.shift(0x3f80_0000) == 126);
}

/// A whole number and a half is kept exactly.
proof fn lemma_index_and_half(index: nat)
    requires
        index < 0x80_0000,
    ensures
        ({
            let m = Binary32::of_nat(index).plus(single(HALF_BITS));
            &&& m.finite()
            &&& 2 * m.value() == (2 * index + 1) * Binary32::one_value()
        }),
{
    lemma_simple_values();
    lemma_single_whole(index);
    let held = lemma_single_held((2 * index + 1) as nat, 148);
    let h = pow2(148) as int;
    let i = index as int;
    assert(i * (2 * h) + h == (2 * i + 1) * h) by (nonlinear_arith);
    assert(2 * ((2 * i + 1) * h) == (2 * i + 1) * (2 * h)) by (nonlinear_arith);
    lemma_single_plus_between(Binary32::of_nat(index), single(HALF_BITS), held, held);
}

/// What lies in a cell lies in the unit interval.
proof fn lemma_middle_is_unit(position: Binary32, index: nat, grid: nat)
    requires
        in_middle_of_cell(position, index, grid),
        index < grid,
    ensures
        unit_clamped(position) == position,
        0 < position.value() < Binary32::one_value(),
{
    lemma_simple_values();
    let one = Binary32::one_value() as int;
    let (i, g, p) = (index as int, grid as int, position.value());
    assert((4 * i + 1) * one > 0) by (nonlinear_arith)
        requires
            i >= 0,
            one > 0,
    ;
    assert((4 * i + 3) * one < 4 * (one * g)) by (nonlinear_arith)
        requires
            i + 1 <= g,
            one > 0,
    ;
    assert(0 < p < one) by (nonlinear_arith)
        requires
            0 < 4 * (p * g),
            4 * (p * g) < 4 * (one * g),
            g > 0,
    ;
    lemma_single_ordered(position, single(ZERO_BITS));
    lemma_single_ordered(single(ONE_BITS), position);
}

/// The middle of a cell lies in the cell.
pub proof fn lemma_middle_in_cell(index: nat, grid: nat)
    requires
        index < grid <= 0x40_0000,
    ensures
        in_middle_of_cell(cell_middle(index, grid), index, grid),
{
    lemma_simple_values();
    lemma_index_and_half(index);
    lemma_single_whole(grid);
    let a = Binary32::of_nat(index).plus(single(HALF_BITS));
    let b = Binary32::of_nat(grid);
    let one = Binary32::one_value() as int;
    let (i, g) = (index as int, grid as int);
    let (x, y) = (a.value(), b.value());
    assert(0 < x <= y) by (nonlinear_arith)
        requires
            2 * x == (2 * i + 1) * one,
            y == g * one,
            0 <= i,
            i + 1 <= g,
            one > 0,
    ;
    assert(0 * y == 0) by (nonlinear_arith);
    assert(0 <= x * one <= one * y) by (nonlinear_arith)
        requires
            0 < x <= y,
            one > 0,
    ;
    lemma_single_over_between(a, b, single(ZERO_BITS), single(ONE_BITS));
    lemma_single_over_near(a, b);
    let m = cell_middle(index, grid).value();
    let exact = x * one;
    let off = abs_nat(m * y - exact) as int;
    assert(2 * exact == ((2 * i + 1) * one) * one) by (nonlinear_arith)
        requires
            exact == x * one,
            2 * x == (2 * i + 1) * one,
    ;
    lemma_quarter_off(m, i, g, one, off);
}

/// A quotient that is off by no more than a last place lies in the middle half of its cell.
proof fn lemma_quarter_off(m: int, i: int, g: int, one: int, off: int)
    requires
        0 <= i < g <= 0x40_0000,
        one >= 0x100_0000_0000_0000,
        ({
            let y = g * one;
            let twice = (2 * i + 1) * one;
            &&& off >= 0
            &&& 2 * off <= y || 2 * (0x100_0000 * off) <= twice * one
            &&& -(2 * off) <= 2 * (m * y) - twice * one <= 2 * off
        }),
    ensures
        (4 * i + 1) * one <= 4 * (m * g) <= (4 * i + 3) * one,
{
    let y = g * one;
    let t = 2 * i + 1;
    let twice = t * one;
    let d = 2 * (m * g) - t * one;
    assert(m * y == (m * g) * one) by (nonlinear_arith)
        requires
            y == g * one,
    ;
    assert(2 * (m * y) - twice * one == d * one) by (nonlinear_arith)
        requires
            m * y == (m * g) * one,
            d == 2 * (m * g) - t * one,
            twice == t * one,
    ;
    let e = d * one;
    assert(4 * off <= one * one) by (nonlinear_arith)
        requires
            2 * off <= y || 2 * (0x100_0000 * off) <= twice * one,
            y == g * one,
            twice == t * one,
            t <= 0x80_0000,
            g <= 0x40_0000,
            one >= 0x100_0000_0000_0000,
            off >= 0,
    {
        assert(g * one <= 0x40_0000 * one);
        assert(2 * (0x40_0000 * one) <= one * one);
        assert((t * one) * one == t * (one * one));
        assert(t * (one * one) <= 0x80_0000 * (one * one));
    }
    assert(-one <= 2 * d <= one) by (nonlinear_arith)
        requires
            -(2 * off) <= d * one <= 2 * off,
            4 * off <= one * one,
            one > 0,
    ;
    assert(2 * (t * one) - one == (4 * i + 1) * one) by (nonlinear_arith)
        requires
            t == 2 * i + 1,
    ;
    assert(2 * (t * one) + one == (4 * i + 3) * one) by (nonlinear_arith)
        requires
            t == 2 * i + 1,
    ;
}

/// The middle of a patch lies in the patch.
pub proof fn lemma_patch_middle_in_patch(index: nat, grid: nat)
    requires
        index < grid <= 0x10_0000,
    ensures
        in_middle_of_cell(
            grid_middle(index, single(ONE_BITS).over(Binary32::of_nat(grid))),
            index,
            grid,
        ),
{
    lemma_simple_values();
    lemma_index_and_half(index);
    lemma_single_whole(grid);
    let one = Binary32::one_value() as int;
    let (i, g) = (index as int, grid as int);
    let unit = single(ONE_BITS);
    let side = Binary32::of_nat(grid);
    let extent = unit.over(side);
    let y = side.value();
    assert(one <= y) by (nonlinear_arith)
        requires
            y == g * one,
            g >= 1,
            one > 0,
    ;
    assert(0 * y == 0) by (nonlinear_arith);
    assert(0 <= one * one <= one * y) by (nonlinear_arith)
        requires
            0 < one <= y,
    ;
    lemma_single_over_between(unit, side, single(ZERO_BITS), unit);
    lemma_single_over_near(unit, side);
    let c = extent.value();
    let cg = c * g - one;
    assert(c * y - one * one == cg * one) by (nonlinear_arith)
        requires
            y == g * one,
            cg == c * g - one,
    ;
    lemma_extent_off(cg, g, one);
    let a = Binary32::of_nat(index).plus(single(HALF_BITS));
    let x = a.value();
    let hi = Binary32::of_nat(grid);
    assert(0 < x <= y) by (nonlinear_arith)
        requires
            2 * x == (2 * i + 1) * one,
            y == g * one,
            0 <= i,
            i + 1 <= g,
            one > 0,
    ;
    assert(0 * one == 0) by (nonlinear_arith);
    assert(0 <= x * c <= y * one) by (nonlinear_arith)
        requires
            0 < x <= y,
            0 <= c <= one,
    ;
    lemma_single_times_between(a, extent, single(ZERO_BITS), hi);
    lemma_single_times_near(a, extent);
    lemma_product_off(a.times(extent).value(), x, c, i, g, one);
}

/// What is off in the extent of a cell.
proof fn lemma_extent_off(d: int, g: int, one: int)
    requires
        1 <= g <= 0x10_0000,
        one >= 0x100_0000_0000_0000,
        2 * abs_nat(d * one) <= g * one || 0x100_0000 * abs_nat(d * one) <= one * one,
    ensures
        0x100_0000 * abs_nat(d) <= one,
{
    let e = abs_nat(d) as int;
    assert(abs_nat(d * one) == e * one) by (nonlinear_arith)
        requires
            e == abs_nat(d),
            one > 0,
    ;
    assert(0x100_0000 * e <= one) by (nonlinear_arith)
        requires
            2 * (e * one) <= g * one || 0x100_0000 * (e * one) <= one * one,
            g <= 0x10_0000,
            one >= 0x100_0000_0000_0000,
    {
        if 2 * (e * one) <= g * one {
            assert(2 * e <= g);
        } else {
            assert((0x100_0000 * e) * one <= one * one);
        }
    }
}

/// A product of a middle and an extent lies in the middle half of its cell.
#[verifier::rlimit(40)]
proof fn lemma_product_off(m: int, x: int, c: int, i: int, g: int, one: int)
    requires
        0 <= i < g <= 0x10_0000,
        one >= 0x100_0000_0000_0000,
        2 * x == (2 * i + 1) * one,
        0x100_0000 * abs_nat(c * g - one) <= one,
        c >= 0,
        2 * abs_nat(m * one - x * c) <= one || 0x100_0000 * abs_nat(m * one - x * c) <= abs_nat(
            x * c,
        ),
    ensures
        (4 * i + 1) * one <= 4 * (m * g) <= (4 * i + 3) * one,
{
    let u = m * one - x * c;
    let v = c * g - one;
    let (p, q) = (abs_nat(u) as int, abs_nat(v) as int);
    let d = m * g - x;
    assert(0 < x <= 0x10_0000 * one) by (nonlinear_arith)
        requires
            2 * x == (2 * i + 1) * one,
            0 <= i,
            2 * i + 1 <= 0x20_0000,
            one > 0,
    ;
    assert(d * one == u * g + x * v) by (nonlinear_arith)
        requires
            d == m * g - x,
            u == m * one - x * c,
            v == c * g - one,
    ;
    assert(x * c >= 0) by (nonlinear_arith)
        requires
            x > 0,
            c >= 0,
    ;
    let s = x * one;
    assert((x * c) * g == x * (v + one)) by (nonlinear_arith)
        requires
            v == c * g - one,
    ;
    assert(x * v <= s && -(x * q) <= x * v <= x * q && 0x100_0000 * (x * q) <= s) by (nonlinear_arith)
        requires
            -q <= v <= q,
            0x100_0000 * q <= one,
            x > 0,
            q >= 0,
            s == x * one,
    {
        assert(x * (0x100_0000 * q) <= x * one);
    }
    assert((x * c) * g <= 2 * s) by (nonlinear_arith)
        requires
            (x * c) * g == x * (v + one),
            x * v <= s,
            s == x * one,
    ;
    assert(-(p * g) <= u * g <= p * g) by (nonlinear_arith)
        requires
            -p <= u <= p,
            g > 0,
    ;
    let w = one * one;
    assert(s <= 0x10_0000 * w) by (nonlinear_arith)
        requires
            s == x * one,
            x <= 0x10_0000 * one,
            w == one * one,
            one > 0,
    ;
    assert(8 * (p * g) <= w) by (nonlinear_arith)
        requires
            2 * p <= one || 0x100_0000 * p <= x * c,
            (x * c) * g <= 2 * s,
            s <= 0x10_0000 * w,
            w == one * one,
            0 < g <= 0x10_0000,
            one >= 0x100_0000_0000_0000,
            p >= 0,
    {
        if 2 * p <= one {
            assert((2 * p) * g <= one * g);
            assert(one * g <= one * 0x10_0000);
            assert(4 * (one * 0x10_0000) <= one * one);
        } else {
            assert((0x100_0000 * p) * g <= (x * c) * g);
            assert(0x100_0000 * (p * g) == (0x100_0000 * p) * g);
        }
    }
    assert(16 * (x * q) <= w);
    assert(-w <= 4 * (d * one) <= w);
    assert(-one <= 4 * d <= one) by (nonlinear_arith)
        requires
            -w <= 4 * (d * one) <= w,
            w == one * one,
            one > 0,
    ;
    assert(4 * x - one == (4 * i + 1) * one && 4 * x + one == (4 * i + 3) * one) by (nonlinear_arith)
        requires
            2 * x == (2 * i + 1) * one,
    ;
}

/// The cell that holds a position in the middle half of a cell is that cell.
#[verifier::rlimit(40)]
pub proof fn lemma_middle_tells_cell(position: Binary32, index: nat, grid: nat)
    requires
        in_middle_of_cell(position, index, grid),
        index < grid <= 0x40_0000,
    ensures
        cell_of(position, grid) == index,
{
    lemma_simple_values();
    lemma_middle_is_unit(position, index, grid);
    lemma_single_whole(grid);
    lemma_single_whole(index);
    let side = Binary32::of_nat(grid);
    let one = Binary32::one_value() as int;
    let (i, g, p) = (index as int, grid as int, position.value());
    assert(p * (g * one) == (p * g) * one) by (nonlinear_arith);
    let e = p * g;
    assert((i * one) * one <= e * one <= (g * one) * one) by (nonlinear_arith)
        requires
            (4 * i + 1) * one <= 4 * e,
            4 * e <= (4 * i + 3) * one,
            i + 1 <= g,
            one > 0,
    {
        assert(i * one <= e);
        assert(e <= g * one);
    }
    lemma_single_times_between(position, side, Binary32::of_nat(index), side);
    lemma_single_times_near(position, side);
    let place = position.times(side);
    let m = place.value();
    let exact = e * one;
    let off = abs_nat(m * one - exact) as int;
    assert(exact >= 0) by (nonlinear_arith)
        requires
            exact == e * one,
            (4 * i + 1) * one <= 4 * e,
            i >= 0,
            one > 0,
    ;
    assert(m < (i + 1) * one) by (nonlinear_arith)
        requires
            4 * e <= (4 * i + 3) * one,
            exact == e * one,
            m * one <= exact + off,
            2 * off <= one || 0x100_0000 * off <= exact,
            0 <= i < 0x40_0000,
            one >= 0x100_0000_0000_0000,
            off >= 0,
    {
        let w = one * one;
        assert((4 * e) * one <= ((4 * i + 3) * one) * one);
        assert(4 * exact <= (4 * i + 3) * w);
        assert(4 * exact <= 0x100_0000 * w) by {
            assert((4 * i + 3) * w <= 0x100_0000 * w) by (nonlinear_arith)
                requires
                    4 * i + 3 <= 0x100_0000,
                    w >= 0,
            ;
        }
        assert(one < w) by (nonlinear_arith)
            requires
                w == one * one,
                one >= 2,
        ;
        assert(4 * off <= w);
        assert(4 * (m * one) <= (4 * i + 4) * w);
    }
    assert((i + 1) * one == i * one + one) by (nonlinear_arith);
    vstd::arithmetic::div_mod::lemma_fundamental_div_mod_converse(m, one, i, m - i * one);
    assert(place.floor_int() == i);
}

/// The fixation of a patch lies in that patch: from its position one can tell the column and the row
/// of the patch, and so the patch itself.
#[verifier::rlimit(40)]
pub proof fn lemma_patch_fixation_in_patch(cell: ScoredCell, config: AutoGazePatchDiffConfig)
    requires
        0 < config.grid_size <= 0x10_0000,
        cell.index < config.grid_size * config.grid_size,
    ensures
        ({
            let grid = config.grid_size as nat;
            let point = cell_fixation(cell, config);
            let (col, row) = (cell.index as nat % grid, cell.index as nat / grid);
            &&& point.grid == grid
            &&& in_middle_of_cell(point.x, col, grid)
            &&& in_middle_of_cell(point.y, row, grid)
            &&& cell_of(point.x, grid) == col
            &&& cell_of(point.y, grid) == row
            &&& cell_of(point.y, grid) * grid + cell_of(point.x, grid) == cell.index
        }),
{
    let grid = config.grid_size as nat;
    let (col, row) = (cell.index as nat % grid, cell.index as nat / grid);
    lemma_grid_cell(cell.index as int, grid as int);
    let extent = single(ONE_BITS).over(Binary32::of_nat(grid));
    lemma_patch_middle_in_patch(col, grid);
    lemma_patch_middle_in_patch(row, grid);
    lemma_middle_is_unit(grid_middle(col, extent), col, grid);
    lemma_middle_is_unit(grid_middle(row, extent), row, grid);
    lemma_middle_tells_cell(grid_middle(col, extent), col, grid);
    lemma_middle_tells_cell(grid_middle(row, extent), row, grid);
}

/// The column and the row of a cell that is counted row by row.
proof fn lemma_grid_cell(index: int, grid: int)
    requires
        0 <= index < grid * grid,
        grid > 0,
    ensures
        0 <= index % grid < grid,
        0 <= index / grid < grid,
        (index / grid) * grid + index % grid == index,
{
    vstd::arithmetic::div_mod::lemma_fundamental_div_mod(index, grid);
    let (q, r) = (index / grid, index % grid);
    assert(0 <= q < grid) by (nonlinear_arith)
        requires
            index == grid * q + r,
            0 <= r < grid,
            0 <= index < grid * grid,
    ;
    assert(q * grid == grid * q) by (nonlinear_arith);
}

/// The fixation that a token stands for lies in the token's cell of its scale's grid: from its
/// position and its grid one can tell the token's index in the scale.
#[verifier::rlimit(40)]
pub proof fn lemma_token_fixation_in_cell(
    token: nat,
    layouts: Seq<AutoGazeScaleTokenLayout>,
    confidence: Binary32,
)
    requires
        scale_of(token, layouts, 0) is Some,
        ({
            let (k, local) = scale_of(token, layouts, 0)->0;
            let grid = layouts[k as int].grid;
            0 < grid <= 0x40_0000 && local < grid * grid
        }),
    ensures
        ({
            let (k, local) = scale_of(token, layouts, 0)->0;
            let grid = layouts[k as int].grid as nat;
            let point = token_point(token, layouts, confidence)->0;
            &&& token_point(token, layouts, confidence) is Some
            &&& point.grid == grid
            &&& in_middle_of_cell(point.x, local % grid, grid)
            &&& in_middle_of_cell(point.y, local / grid, grid)
            &&& cell_of(point.y, grid) * grid + cell_of(point.x, grid) == local
        }),
{
    let (k, local) = scale_of(token, layouts, 0)->0;
    let grid = layouts[k as int].grid as nat;
    lemma_grid_cell(local as int, grid as int);
    let (col, row) = (local % grid, local / grid);
    lemma_middle_in_cell(col, grid);
    lemma_middle_in_cell(row, grid);
    lemma_middle_is_unit(cell_middle(col, grid), col, grid);
    lemma_middle_is_unit(cell_middle(row, grid), row, grid);
    lemma_middle_tells_cell(cell_middle(col, grid), col, grid);
    lemma_middle_tells_cell(cell_middle(row, grid), row, grid);
}

/// The fixation at a cell of the grid over the frame lies in that cell.
pub proof fn lemma_grid_point_in_cell(
    col: nat,
    row: nat,
    grid_width: nat,
    grid_height: nat,
    confidence: Binary32,
    grid: usize,
)
    requires
        col < grid_width <= 0x40_0000,
        row < grid_height <= 0x40_0000,
    ensures
        ({
            let point = grid_point(col, row, grid_width, grid_height, confidence, grid);
            &&& in_middle_of_cell(point.x, col, grid_width)
            &&& in_middle_of_cell(point.y, row, grid_height)
            &&& cell_of(point.x, grid_width) == col
            &&& cell_of(point.y, grid_height) == row
        }),
{
    lemma_middle_in_cell(col, grid_width);
    lemma_middle_in_cell(row, grid_height);
    lemma_middle_is_unit(cell_middle(col, grid_width), col, grid_width);
    lemma_middle_is_unit(cell_middle(row, grid_height), row, grid_height);
    lemma_middle_tells_cell(cell_middle(col, grid_width), col, grid_width);
    lemma_middle_tells_cell(cell_middle(row, grid_height), row, grid_height);
}

/// A position of the unit interval.
pub open spec fn is_unit(position: Binary32) -> bool {
    position.finite() && 0 <= position.value() <= Binary32::one_value()
}

/// Where a position of a tile lies on the frame, in pixels: exactly, in units of single precision.
pub open spec fn exact_place(start: nat, position: Binary32, extent: nat) -> int {
    start * Binary32::one_value() + position.value() * extent
}

/// A fixation lands inside its own tile: its position on the frame, in pixels, is at least the
/// tile's start and at most its end. It is the start and the share of the extent, as far as single
/// precision keeps them.
#[verifier::rlimit(40)]
pub proof fn lemma_position_in_tile(start: nat, position: Binary32, extent: nat)
    requires
        is_unit(position),
        start + extent <= 0x100_0000,
    ensures
        ({
            let place = frame_position(start, position, extent);
            let exact = exact_place(start, position, extent);
            &&& place.finite()
            &&& start * Binary32::one_value() <= place.value() <= (start + extent)
                * Binary32::one_value()
            &&& 0x40_0000 * abs_nat(place.value() - exact) <= exact
        }),
{
    lemma_simple_values();
    lemma_single_whole(start);
    lemma_single_whole(extent);
    lemma_single_whole(start + extent);
    let one = Binary32::one_value() as int;
    let (s, e, p) = (start as int, extent as int, position.value());
    let side = Binary32::of_nat(extent);
    let inner = position.times(side);
    assert(0 * one == 0) by (nonlinear_arith);
    assert(0 <= p * (e * one) <= (e * one) * one) by (nonlinear_arith)
        requires
            0 <= p <= one,
            e >= 0,
    ;
    lemma_single_times_between(position, side, single(ZERO_BITS), side);
    lemma_single_times_near(position, side);
    let t = inner.value();
    let pe = p * e;
    assert((s + e) * one == s * one + e * one) by (nonlinear_arith);
    lemma_single_plus_between(
        Binary32::of_nat(start),
        inner,
        Binary32::of_nat(start),
        Binary32::of_nat(start + extent),
    );
    lemma_single_plus_near(Binary32::of_nat(start), inner);
    assert(s * one >= 0) by (nonlinear_arith)
        requires
            s >= 0,
            one > 0,
    ;
    assert(pe >= 0) by (nonlinear_arith)
        requires
            pe == p * e,
            p >= 0,
            e >= 0,
    ;
    assert(t * one - p * (e * one) == (t - pe) * one) by (nonlinear_arith)
        requires
            pe == p * e,
    ;
    assert(p * (e * one) == pe * one) by (nonlinear_arith)
        requires
            pe == p * e,
    ;
    lemma_scaled_off(t - pe, pe, one);
}

/// What is off by less than one unit is not off.
pub(crate) proof fn lemma_scaled_off(d: int, exact: int, one: int)
    requires
        one > 0,
        exact >= 0,
        2 * abs_nat(d * one) <= one || 0x100_0000 * abs_nat(d * one) <= abs_nat(exact * one),
    ensures
        0x100_0000 * abs_nat(d) <= exact,
{
    let e = abs_nat(d) as int;
    assert(abs_nat(d * one) == e * one) by (nonlinear_arith)
        requires
            e == abs_nat(d),
            one > 0,
    ;
    assert(abs_nat(exact * one) == exact * one) by (nonlinear_arith)
        requires
            exact >= 0,
            one > 0,
    ;
    assert(0x100_0000 * e <= exact) by (nonlinear_arith)
        requires
            2 * (e * one) <= one || 0x100_0000 * (e * one) <= exact * one,
            one > 0,
            exact >= 0,
            e >= 0,
    {
        if 2 * (e * one) <= one {
            assert(2 * e <= 1);
        } else {
            assert((0x100_0000 * e) * one <= exact * one);
        }
    }
}

/// Moving the tile by `d` pixels moves the fixation by `d` pixels, exactly where single precision
/// holds the positions: there they are the start and the share of the extent.
///
/// The share is a multiple of `2^e` units, and both positions have no more than 24 digits above it.
pub proof fn lemma_position_moves_with_tile(
    start: nat,
    d: nat,
    position: Binary32,
    extent: nat,
    e: nat,
)
    requires
        is_unit(position),
        start + d + extent <= 0x100_0000,
        e <= 149,
        (position.value() * extent) % (pow2(e) as int) == 0,
        exact_place(start + d, position, extent) <= 0x100_0000 * pow2(e),
    ensures
        frame_position(start, position, extent).value() == exact_place(start, position, extent),
        frame_position(start + d, position, extent).value() == frame_position(
            start,
            position,
            extent,
        ).value() + d * Binary32::one_value(),
{
    let one = Binary32::one_value() as int;
    lemma_simple_values();
    let (s, m) = (start as int, d as int);
    assert((s + m) * one == s * one + m * one && m * one >= 0) by (nonlinear_arith)
        requires
            m >= 0,
            one > 0,
    ;
    lemma_position_exact(start, position, extent, e);
    lemma_position_exact(start + d, position, extent, e);
}

proof fn lemma_position_exact(start: nat, position: Binary32, extent: nat, e: nat)
    requires
        is_unit(position),
        start + extent <= 0x100_0000,
        e <= 149,
        (position.value() * extent) % (pow2(e) as int) == 0,
        exact_place(start, position, extent) <= 0x100_0000 * pow2(e),
    ensures
        frame_position(start, position, extent).value() == exact_place(start, position, extent),
{
    lemma_simple_values();
    lemma_single_whole(start);
    lemma_single_whole(extent);
    let one = Binary32::one_value() as int;
    let q = pow2(e) as int;
    lemma_pow2_pos(e);
    lemma_pow2_adds(e, (149 - e) as nat);
    let r = pow2((149 - e) as nat) as int;
    let (s, x, p) = (start as int, extent as int, position.value());
    let pe = p * x;
    vstd::arithmetic::div_mod::lemma_fundamental_div_mod(pe, q);
    let g = pe / q;
    assert(pe == g * q) by (nonlinear_arith)
        requires
            pe == q * g + 0,
    ;
    let h = g + s * r;
    assert(s * one + pe == h * q) by (nonlinear_arith)
        requires
            one == q * r,
            pe == g * q,
            h == g + s * r,
    ;
    assert(pe >= 0) by (nonlinear_arith)
        requires
            pe == p * x,
            p >= 0,
            x >= 0,
    ;
    assert(s * one >= 0) by (nonlinear_arith)
        requires
            s >= 0,
            one > 0,
    ;
    assert(0 <= g <= 0x100_0000 && 0 <= h <= 0x100_0000) by (nonlinear_arith)
        requires
            0 <= g * q <= 0x100_0000 * q,
            0 <= h * q <= 0x100_0000 * q,
            q > 0,
    ;
    let inner = lemma_single_held(g as nat, e);
    let place = lemma_single_held(h as nat, e);
    assert(p * (x * one) == pe * one) by (nonlinear_arith)
        requires
            pe == p * x,
    ;
    lemma_single_times_between(position, Binary32::of_nat(extent), inner, inner);
    lemma_single_plus_between(
        Binary32::of_nat(start),
        position.times(Binary32::of_nat(extent)),
        place,
        place,
    );
}

/// A quotient by a whole number, times that number, is what was divided: off by no more than a last
/// place, or by half of a unit for each part where the quotient is as small as that.
pub(crate) proof fn lemma_over_whole_near(a: Binary32, parts: nat)
    requires
        a.finite(),
        0 <= a.value() <= parts * Binary32::one_value(),
        0 < parts <= 0x100_0000,
    ensures
        ({
            let r = a.over(Binary32::of_nat(parts));
            &&& is_unit(r)
            &&& 2 * abs_nat(r.value() * parts - a.value()) <= parts || 0x100_0000 * abs_nat(
                r.value() * parts - a.value(),
            ) <= a.value()
        }),
{
    lemma_simple_values();
    lemma_single_whole(parts);
    let one = Binary32::one_value() as int;
    let side = Binary32::of_nat(parts);
    let (n, v) = (parts as int, a.value());
    let y = side.value();
    assert(y > 0) by (nonlinear_arith)
        requires
            y == n * one,
            n > 0,
            one > 0,
    ;
    assert(0 * y == 0) by (nonlinear_arith);
    assert(0 <= v * one <= one * y) by (nonlinear_arith)
        requires
            0 <= v <= y,
            one > 0,
    ;
    lemma_single_over_between(a, side, single(ZERO_BITS), single(ONE_BITS));
    lemma_single_over_near(a, side);
    let r = a.over(side).value();
    let d = r * n - v;
    assert(r * y - v * one == d * one) by (nonlinear_arith)
        requires
            y == n * one,
            d == r * n - v,
    ;
    let e = abs_nat(d) as int;
    assert(abs_nat(d * one) == e * one) by (nonlinear_arith)
        requires
            e == abs_nat(d),
            one > 0,
    ;
    assert(abs_nat(v * one) == v * one) by (nonlinear_arith)
        requires
            v >= 0,
            one > 0,
    ;
    assert(2 * e <= n || 0x100_0000 * e <= v) by (nonlinear_arith)
        requires
            2 * (e * one) <= n * one || 0x100_0000 * (e * one) <= v * one,
            one > 0,
    {
        if 2 * (e * one) <= n * one {
            assert((2 * e) * one <= n * one);
        } else {
            assert((0x100_0000 * e) * one <= v * one);
        }
    }
}

/// `position` is where `exact` pixels of `source` lie, as far as single precision keeps it.
pub open spec fn placed_at(position: Binary32, source: nat, exact: int) -> bool {
    &&& is_unit(position)
    &&& 0x20_0000 * abs_nat(position.value() * source - exact) <= exact + 0x20_0000 * source
}

proof fn lemma_axis_placed(start: nat, position: Binary32, extent: nat, source: nat)
    requires
        is_unit(position),
        start + extent <= 0x100_0000,
        0 < source <= 0x100_0000,
        !Binary32::of_nat(source).le(frame_position(start, position, extent)),
    ensures
        ({
            let place = frame_position(start, position, extent).over(Binary32::of_nat(source));
            &&& unit_clamped(place) == place
            &&& placed_at(place, source, exact_place(start, position, extent))
        }),
{
    lemma_simple_values();
    lemma_position_in_tile(start, position, extent);
    lemma_single_whole(source);
    let at = frame_position(start, position, extent);
    let one = Binary32::one_value() as int;
    lemma_single_ordered(Binary32::of_nat(source), at);
    assert(start * one >= 0) by (nonlinear_arith)
        requires
            one > 0,
    ;
    lemma_over_whole_near(at, source);
    let place = at.over(Binary32::of_nat(source));
    lemma_single_ordered(place, single(ZERO_BITS));
    lemma_single_ordered(single(ONE_BITS), place);
}

/// With overlapping tiles a fixation lands inside its own tile: on the frame it lies where the
/// tile's start and its share of the tile's sides put it, and it is left out only where that is
/// beyond the frame.
#[verifier::rlimit(40)]
pub proof fn lemma_overlapping_point_placed(
    point: FixationPoint,
    tile: AutoGazeTile,
    layout: AutoGazeTileLayout,
)
    requires
        is_unit(point.x),
        is_unit(point.y),
        tile.x + tile.width <= 0x100_0000,
        tile.y + tile.height <= 0x100_0000,
        0 < layout.source_width <= 0x100_0000,
        0 < layout.source_height <= 0x100_0000,
    ensures
        ({
            let across = exact_place(tile.x as nat, point.x, tile.width as nat);
            let down = exact_place(tile.y as nat, point.y, tile.height as nat);
            let one = Binary32::one_value();
            match overlapping_point(point, tile, layout) {
                Some(moved) => {
                    &&& placed_at(moved.x, layout.source_width as nat, across)
                    &&& placed_at(moved.y, layout.source_height as nat, down)
                    &&& moved.confidence == unit_clamped(point.confidence)
                    &&& moved.grid == point.grid
                },
                None => 0x40_0001 * across >= 0x40_0000 * (layout.source_width * one) || 0x40_0001
                    * down >= 0x40_0000 * (layout.source_height * one),
            }
        }),
{
    let (width, height) = (layout.source_width as nat, layout.source_height as nat);
    let x = frame_position(tile.x as nat, point.x, tile.width as nat);
    let y = frame_position(tile.y as nat, point.y, tile.height as nat);
    lemma_position_in_tile(tile.x as nat, point.x, tile.width as nat);
    lemma_position_in_tile(tile.y as nat, point.y, tile.height as nat);
    lemma_single_whole(width);
    lemma_single_whole(height);
    lemma_single_ordered(Binary32::of_nat(width), x);
    lemma_single_ordered(Binary32::of_nat(height), y);
    if overlapping_point(point, tile, layout) is Some {
        lemma_axis_placed(tile.x as nat, point.x, tile.width as nat, width);
        lemma_axis_placed(tile.y as nat, point.y, tile.height as nat, height);
    }
}

/// The extent of a tile's cell on the frame is its share of the tile, as a share of the frame.
pub proof fn lemma_extent_on_frame(cell: Binary32, tile: nat, source: nat)
    requires
        is_unit(cell),
        0 < tile <= source <= 0x100_0000,
    ensures
        ({
            let extent = frame_extent(cell, tile, Binary32::of_nat(source));
            let exact = cell.value() * tile;
            &&& is_unit(extent)
            &&& 0x40_0000 * abs_nat(extent.value() * source - exact) <= exact + 0x40_0000 * source
        }),
{
    lemma_simple_values();
    lemma_single_whole(tile);
    lemma_single_whole(0);
    let one = Binary32::one_value() as int;
    let (t, c, w) = (tile as int, cell.value(), source as int);
    let side = Binary32::of_nat(tile);
    let inner = cell.times(side);
    let exact = c * t;
    assert(0 * one == 0) by (nonlinear_arith);
    assert(0 <= c * (t * one) <= (t * one) * one) by (nonlinear_arith)
        requires
            0 <= c <= one,
            t >= 0,
    ;
    lemma_single_times_between(cell, side, single(ZERO_BITS), side);
    lemma_single_times_near(cell, side);
    let v = inner.value();
    assert(exact >= 0) by (nonlinear_arith)
        requires
            exact == c * t,
            c >= 0,
            t >= 0,
    ;
    assert(v * one - c * (t * one) == (v - exact) * one) by (nonlinear_arith)
        requires
            exact == c * t,
    ;
    assert(c * (t * one) == exact * one) by (nonlinear_arith)
        requires
            exact == c * t,
    ;
    lemma_scaled_off(v - exact, exact, one);
    assert(t * one <= w * one) by (nonlinear_arith)
        requires
            t <= w,
            one > 0,
    ;
    lemma_over_whole_near(inner, source);
}

/// A number that is moved between two others is one of the three: itself where it lies between them.
pub proof fn lemma_clamped(v: Binary32, lo: Binary32, hi: Binary32)
    requires
        v.finite(),
        lo.finite(),
        hi.finite(),
        lo.value() <= hi.value(),
    ensures
        v.clamped(lo, hi).finite(),
        lo.value() <= v.clamped(lo, hi).value() <= hi.value(),
        lo.value() <= v.value() <= hi.value() ==> v.clamped(lo, hi) == v,
        v.value() < lo.value() ==> v.clamped(lo, hi) == lo,
        v.value() > hi.value() ==> v.clamped(lo, hi) == hi,
{
    lemma_single_ordered(v, lo);
    lemma_single_ordered(hi, v);
}

/// Half of a cell's extent times a scale is that, up to rounding, and no more than one half.
#[verifier::rlimit(40)]
pub proof fn lemma_half_extent(extent: Binary32, scale: Binary32)
    requires
        is_unit(extent),
        scale.finite(),
        single(MIN_CELL_EXTENT_BITS).value() <= scale.value() <= 0x10_0000
            * Binary32::one_value(),
    ensures
        ({
            let half = FixationPoint::half_extent(extent, scale);
            let one = Binary32::one_value();
            let exact = extent.value() * scale.value();
            &&& half.finite()
            &&& 0 <= 2 * half.value() <= one
            &&& 2 * half.value() < one ==> 0x20_0000 * abs_nat(
                2 * (half.value() * one) - exact,
            ) <= exact + 0x20_0000 * (4 * one)
            &&& 2 * half.value() == one ==> 0x20_0000 * (one * one) <= 0x20_0001 * exact
                + 0x20_0000 * (4 * one)
        }),
{
    lemma_simple_values();
    lemma_least_extent();
    let one = Binary32::one_value() as int;
    let least = single(MIN_CELL_EXTENT_BITS);
    lemma_single_ordered(scale, least);
    assert(scale.larger(least) == scale);
    let (e, s) = (extent.value(), scale.value());
    let exact = e * s;
    lemma_single_whole(0x10_0000);
    let top = Binary32::of_nat(0x10_0000);
    assert(0 * one == 0) by (nonlinear_arith);
    assert(0 <= exact <= top.value() * one) by (nonlinear_arith)
        requires
            exact == e * s,
            0 <= e <= one,
            0 <= s <= top.value(),
    ;
    lemma_single_times_between(extent, scale, single(ZERO_BITS), top);
    lemma_single_times_near(extent, scale);
    let grown = extent.times(scale);
    let v = grown.value();
    let h = single(HALF_BITS);
    assert(0 <= v * h.value() <= top.value() * one) by (nonlinear_arith)
        requires
            0 <= v <= top.value(),
            0 <= h.value() <= one,
    ;
    lemma_single_times_between(grown, h, single(ZERO_BITS), top);
    lemma_single_times_near(grown, h);
    let r = grown.times(h);
    let u = r.value();
    let hv = h.value();
    let x = v * one - exact;
    let y = u * one - v * hv;
    assert(2 * (u * one) - exact == 2 * y + x) by (nonlinear_arith)
        requires
            x == v * one - exact,
            y == u * one - v * hv,
            2 * hv == one,
    ;
    assert(2 * (v * hv) == v * one) by (nonlinear_arith)
        requires
            2 * hv == one,
    ;
    assert(v * hv >= 0) by (nonlinear_arith)
        requires
            v >= 0,
            hv >= 0,
    ;
    lemma_clamped(r, single(ZERO_BITS), h);
    if u > hv {
        assert(2 * (u * one) >= one * one) by (nonlinear_arith)
            requires
                2 * u >= one,
                one > 0,
        ;
    }
    if 2 * u == one {
        assert(2 * (u * one) == one * one) by (nonlinear_arith)
            requires
                2 * u == one,
        ;
    }
}

proof fn lemma_least_extent()
    ensures
        single(MIN_CELL_EXTENT_BITS).finite(),
        0 < single(MIN_CELL_EXTENT_BITS).value() < Binary32::one_value(),
        0xf_4000 * single(MIN_CELL_EXTENT_BITS).value() < Binary32::one_value(),
        Binary32::one_value() < 0xf_4400 * single(MIN_CELL_EXTENT_BITS).value(),
{
    let f = Binary32::format();
    f.lemma_constants();
    let m = 0x3586_37bdnat;
    assert(f.significand(m) == 0x86_37bd);
    assert(f.shift(m) == 106);
    lemma_pow2_adds(43, 106);
    lemma2_to64();
    lemma2_to64_rest();
    lemma_pow2_pos(106);
    let (p, q) = (pow2(106) as int, pow2(149) as int);
    assert(0 < 0x86_37bd * p && 0xf_4000 * (0x86_37bd * p) < q && q < 0xf_4400 * (0x86_37bd * p))
        by (nonlinear_arith)
        requires
            q == 0x800_0000_0000 * p,
            p > 0,
    ;
}

/// The bounds of a cell lie about its centre, half of its extent to each side, and are cut to the
/// image.
#[verifier::rlimit(40)]
pub proof fn lemma_bounds_about_centre(point: FixationPoint, scale: Binary32)
    requires
        is_unit(point.x),
        is_unit(point.y),
        point.width.finite(),
        point.height.finite(),
        point.scale.finite(),
        scale.finite(),
        single(MIN_CELL_EXTENT_BITS).value() <= scale.value() <= 0x10_0000
            * Binary32::one_value(),
    ensures
        ({
            let bounds = point.spec_scaled_bounds(scale);
            let across = FixationPoint::half_extent(point.spec_cell_width(), scale);
            let down = FixationPoint::half_extent(point.spec_cell_height(), scale);
            &&& is_unit(point.spec_cell_width())
            &&& is_unit(point.spec_cell_height())
            &&& spans(point.x, across, bounds.x_min, bounds.x_max)
            &&& spans(point.y, down, bounds.y_min, bounds.y_max)
        }),
{
    lemma_simple_values();
    lemma_least_extent();
    let (least, most) = (single(MIN_CELL_EXTENT_BITS), single(ONE_BITS));
    lemma_clamped(point.width, least, most);
    lemma_clamped(point.height, least, most);
    lemma_clamped(point.scale, least, most);
    lemma_half_extent(point.spec_cell_width(), scale);
    lemma_half_extent(point.spec_cell_height(), scale);
    lemma_spans(point.x, FixationPoint::half_extent(point.spec_cell_width(), scale));
    lemma_spans(point.y, FixationPoint::half_extent(point.spec_cell_height(), scale));
}

/// The interval from `low` to `high` is the one from `half` below `centre` to `half` above, in single
/// precision, cut to the unit interval.
pub open spec fn spans(centre: Binary32, half: Binary32, low: Binary32, high: Binary32) -> bool {
    let one = Binary32::one_value();
    let (a, b) = (centre.value() - half.value(), centre.value() + half.value());
    &&& is_unit(low)
    &&& is_unit(high)
    &&& low.value() <= centre.value() <= high.value()
    &&& a <= 0 ==> low.value() == 0
    &&& a >= 0 ==> 0x100_0000 * abs_nat(low.value() - a) <= a
    &&& b >= one ==> high.value() == one
    &&& b <= one ==> 0x100_0000 * abs_nat(high.value() - b) <= b
}

#[verifier::rlimit(40)]
proof fn lemma_spans(centre: Binary32, half: Binary32)
    requires
        is_unit(centre),
        half.finite(),
        0 <= 2 * half.value() <= Binary32::one_value(),
    ensures
        spans(
            centre,
            half,
            unit_clamped(centre.minus(half)),
            unit_clamped(centre.plus(half)),
        ),
{
    lemma_simple_values();
    let one = Binary32::one_value() as int;
    let minus = half.negated();
    assert(minus.finite() && minus.value() == -half.value());
    lemma_single_whole(2);
    let two = Binary32::of_nat(2);
    lemma_single_plus_between(centre, half, centre, two);
    lemma_single_plus_near(centre, half);
    lemma_single_plus_between(centre, minus, minus, centre);
    lemma_single_plus_near(centre, minus);
    let (lo, hi) = (single(ZERO_BITS), single(ONE_BITS));
    lemma_clamped(centre.plus(half), lo, hi);
    lemma_clamped(centre.plus(minus), lo, hi);
    if centre.value() + half.value() <= one {
        lemma_single_plus_between(centre, half, centre, hi);
    }
    if centre.value() + half.value() >= one {
        lemma_single_plus_between(centre, half, hi, two);
    }
    if centre.value() >= half.value() {
        lemma_single_plus_between(centre, minus, lo, centre);
    }
    if centre.value() <= half.value() {
        lemma_single_plus_between(centre, minus, minus, lo);
    }
}

/// A fixation of which the grid was not recorded still tells it: where its extents are those of a
/// cell of a square grid, the side of that grid is found.
#[verifier::rlimit(40)]
pub proof fn lemma_grid_from_extents(point: FixationPoint, grid: nat)
    requires
        0 < grid <= 0x1_0000,
        point.grid == 0,
        point.width == single(ONE_BITS).over(Binary32::of_nat(grid)),
        point.height == point.width,
    ensures
        grid_of(point) == Some(grid as usize),
{
    lemma_simple_values();
    lemma_least_extent();
    lemma_single_whole(grid);
    lemma_single_whole(1);
    lemma_single_whole(0x2_0000);
    let one = Binary32::one_value() as int;
    let g = grid as int;
    let unit = single(ONE_BITS);
    assert(one <= g * one) by (nonlinear_arith)
        requires
            g >= 1,
            one > 0,
    ;
    lemma_over_whole_near(unit, grid);
    let extent = point.width;
    let e = extent.value();
    let d = e * g - one;
    assert(0x100_0000 * abs_nat(d) <= one);
    assert(one <= 2 * (e * g));
    assert(0 < e && 4 * single(MIN_CELL_EXTENT_BITS).value() <= 4 * e) by (nonlinear_arith)
        requires
            one <= 2 * (e * g),
            0 < g <= 0x1_0000,
            0xf_4000 * single(MIN_CELL_EXTENT_BITS).value() < one,
            single(MIN_CELL_EXTENT_BITS).value() > 0,
            one > 0,
    ;
    let zero = single(ZERO_BITS);
    lemma_single_ordered(zero, extent);
    lemma_clamped(extent, single(MIN_CELL_EXTENT_BITS), unit);
    assert(point.spec_cell_width() == extent && point.spec_cell_height() == extent);
    let top = Binary32::of_nat(0x2_0000);
    assert(0 * e == 0) by (nonlinear_arith);
    assert(0 <= one * one <= top.value() * e) by (nonlinear_arith)
        requires
            one <= 2 * (e * g),
            0 < g <= 0x1_0000,
            top.value() == 0x2_0000 * one,
            e > 0,
            one > 0,
    {
        assert(e * g <= e * 0x1_0000);
        assert(one <= e * 0x2_0000);
        assert(one * one <= one * (e * 0x2_0000));
        assert(one * (e * 0x2_0000) == (0x2_0000 * one) * e);
    }
    lemma_single_over_between(unit, extent, zero, top);
    lemma_single_over_near(unit, extent);
    let across = unit.over(extent);
    let a = across.value();
    lemma_side_found(a, e, g, one);
    let n = 2 * a + one;
    vstd::arithmetic::div_mod::lemma_fundamental_div_mod_converse(
        n,
        2 * one,
        g,
        n - g * (2 * one),
    );
}

proof fn lemma_side_found(a: int, e: int, g: int, one: int)
    requires
        one >= 0x100_0000_0000_0000,
        0 < g <= 0x1_0000,
        e > 0,
        a >= 0,
        one <= 2 * (e * g),
        0x100_0000 * abs_nat(e * g - one) <= one,
        2 * abs_nat(a * e - one * one) <= e || 0x100_0000 * abs_nat(a * e - one * one) <= abs_nat(
            one * one,
        ),
        e <= one,
    ensures
        0 <= 2 * a + one - g * (2 * one) < 2 * one,
{
    let w = one * one;
    let x = a * e - w;
    let y = e * g - one;
    let d = a - g * one;
    assert(w > 0) by (nonlinear_arith)
        requires
            w == one * one,
            one > 0,
    ;
    assert(d * e == x - one * y) by (nonlinear_arith)
        requires
            d == a - g * one,
            x == a * e - w,
            w == one * one,
            y == e * g - one,
    ;
    assert(-w <= 0x100_0000 * (one * y) <= w) by (nonlinear_arith)
        requires
            -one <= 0x100_0000 * y <= one,
            w == one * one,
            one > 0,
    ;
    assert(-w <= 0x100_0000 * x <= w) by (nonlinear_arith)
        requires
            2 * abs_nat(x) <= e || 0x100_0000 * abs_nat(x) <= w,
            e <= one,
            w == one * one,
            one >= 0x100_0000_0000_0000,
    ;
    assert(-w <= 0x80_0000 * (d * e) <= w);
    assert(-one < 4 * d < one) by (nonlinear_arith)
        requires
            -w <= 0x80_0000 * (d * e) <= w,
            w == one * one,
            one <= 2 * (e * g),
            0 < g <= 0x1_0000,
            e > 0,
            one > 0,
    {
        assert(e * g <= e * 0x1_0000);
        assert(one <= e * 0x2_0000);
        assert(one * one <= one * (e * 0x2_0000));
        assert(0x80_0000 * (d * e) <= (one * 0x2_0000) * e);
        assert(-((one * 0x2_0000) * e) <= 0x80_0000 * (d * e));
        assert((0x80_0000 * d) * e <= (one * 0x2_0000) * e);
        assert((-(one * 0x2_0000)) * e <= (0x80_0000 * d) * e);
        assert(0x80_0000 * d <= one * 0x2_0000);
        assert(-(one * 0x2_0000) <= 0x80_0000 * d);
    }
    assert(g * (2 * one) == 2 * (g * one)) by (nonlinear_arith);
}

} // verus!
