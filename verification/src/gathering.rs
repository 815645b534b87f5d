//! What becomes of fixations that are gathered: from tiles onto a frame, and from changes.
use crate::format::abs_nat;
use crate::ieee::Binary32;
use crate::nearness::{
    lemma_single_ordered, lemma_single_over_at_least_one, lemma_single_over_below_one,
    lemma_single_over_near,
};
use crate::order::{by_rank, lemma_by_rank, lemma_ordered_keeps, Ranked};
use crate::patch_diff::{
    cell_fixation, change_confidence, change_points, changed_cells, AutoGazePatchDiffConfig,
    ScoredCell,
};
use crate::placement::{
    in_middle_of_cell, is_unit, lemma_clamped, lemma_grid_point_in_cell, lemma_middle_tells_cell,
    lemma_simple_values,
};
use crate::stitch::{
    has_frame, is_tiled_frame, kept_points, lemma_cells_fill_frame, remapped, stitched_points,
    stitched_stop,
};
use crate::tiles::{AutoGazeTile, AutoGazeTileLayout};
use crate::trace::{
    at_least_one, single, unit_clamped, FixationPoint, FixationSet, FrameFixationTrace, ONE_BITS,
    ZERO_BITS,
};
use vstd::prelude::*;

verus! {

/// With tiles side by side a fixation keeps its cell: on the grid over the frame it lies in the
/// cell that its tile's place and its place in the tile make up.
#[verifier::rlimit(40)]
pub proof fn lemma_side_by_side_keeps_cell(
    point: FixationPoint,
    tile: AutoGazeTile,
    layout: AutoGazeTileLayout,
    tiles: (nat, nat),
    place: (nat, nat),
    cell: (nat, nat),
)
    requires
        layout.stride == layout.tile_size,
        layout.tile_size > 0,
        layout.source_width == tiles.0 * layout.tile_size,
        layout.source_height == tiles.1 * layout.tile_size,
        tile.x == place.0 * layout.tile_size,
        tile.y == place.1 * layout.tile_size,
        place.0 < tiles.0,
        place.1 < tiles.1,
        cell.0 < point.grid,
        cell.1 < point.grid,
        in_middle_of_cell(point.x, cell.0, point.grid as nat),
        in_middle_of_cell(point.y, cell.1, point.grid as nat),
        tiles.0 * point.grid <= 0x40_0000,
        tiles.1 * point.grid <= 0x40_0000,
        tiles.0 * layout.tile_size * point.grid <= usize::MAX,
        tiles.1 * layout.tile_size * point.grid <= usize::MAX,
    ensures
        ({
            let grid = point.grid as nat;
            let moved = remapped(point, tile, layout)->0;
            &&& remapped(point, tile, layout) is Some
            &&& in_middle_of_cell(moved.x, place.0 * grid + cell.0, tiles.0 * grid)
            &&& in_middle_of_cell(moved.y, place.1 * grid + cell.1, tiles.1 * grid)
            &&& moved.grid == grid
            &&& moved.confidence == unit_clamped(point.confidence)
        }),
{
    let grid = point.grid as nat;
    let size = layout.tile_size as nat;
    lemma_tile_fits(tiles.0, grid);
    lemma_tile_fits(tiles.1, grid);
    lemma_middle_tells_cell(point.x, cell.0, grid);
    lemma_middle_tells_cell(point.y, cell.1, grid);
    lemma_cells_fill_frame(tiles.0, size, grid);
    lemma_cells_fill_frame(tiles.1, size, grid);
    vstd::arithmetic::div_mod::lemma_fundamental_div_mod_converse(
        tile.x as int,
        size as int,
        place.0 as int,
        0,
    );
    vstd::arithmetic::div_mod::lemma_fundamental_div_mod_converse(
        tile.y as int,
        size as int,
        place.1 as int,
        0,
    );
    lemma_grid_point_in_cell(
        place.0 * grid + cell.0,
        place.1 * grid + cell.1,
        tiles.0 * grid,
        tiles.1 * grid,
        point.confidence,
        point.grid,
    );
}

proof fn lemma_tile_fits(tiles: nat, grid: nat)
    requires
        tiles > 0,
        tiles * grid <= 0x40_0000,
    ensures
        grid <= 0x40_0000,
{
    assert(grid <= tiles * grid) by (nonlinear_arith)
        requires
            tiles >= 1,
    ;
}

/// The larger of two numbers comes first.
proof fn lemma_rank_follows_value(a: Binary32, b: Binary32)
    requires
        a.finite(),
        b.finite(),
        a.value() < b.value(),
    ensures
        a.total_rank() < b.total_rank(),
{
    lemma_single_ordered(a, b);
}

/// The fixations kept of a tile are those with confidence that fall on the frame, each moved there.
pub proof fn lemma_kept_points(
    points: Seq<FixationPoint>,
    k: nat,
    tile: AutoGazeTile,
    layout: AutoGazeTileLayout,
    moved: FixationPoint,
)
    requires
        k <= points.len(),
    ensures
        kept_points(points, k, tile, layout).contains(moved) <==> exists|i: int|
            0 <= i < k && single(ZERO_BITS).lt((#[trigger] points[i]).confidence) && remapped(
                points[i],
                tile,
                layout,
            ) == Some(moved),
    decreases k,
{
    if k > 0 {
        lemma_kept_points(points, (k - 1) as nat, tile, layout, moved);
        let before = kept_points(points, (k - 1) as nat, tile, layout);
        let after = kept_points(points, k, tile, layout);
        if before.contains(moved) {
            let j = choose|j: int| 0 <= j < before.len() && before[j] == moved;
            assert(after[j] == moved);
        }
        if after.contains(moved) && !before.contains(moved) {
            let j = choose|j: int| 0 <= j < after.len() && after[j] == moved;
            assert(j == before.len());
            assert(remapped(points[k - 1], tile, layout) == Some(moved));
        }
        if single(ZERO_BITS).lt(points[k - 1].confidence) && remapped(points[k - 1], tile, layout)
            == Some(moved) {
            assert(after[before.len() as int] == moved);
        }
    }
}

/// Every tile's fixations that are kept are among those of the frame, and no others are.
pub proof fn lemma_stitched_points(
    traces: Seq<FrameFixationTrace>,
    tiles: Seq<AutoGazeTile>,
    n: nat,
    batch: nat,
    b: int,
    f: int,
    layout: AutoGazeTileLayout,
    moved: FixationPoint,
)
    requires
        n <= tiles.len(),
    ensures
        stitched_points(traces, tiles, n, batch, b, f, layout).contains(moved) <==> exists|t: int|
            0 <= t < n && has_frame(traces, t * batch + b, f) && #[trigger] tile_gives(
                traces,
                tiles[t],
                t * batch + b,
                f,
                layout,
                moved,
            ),
    decreases n,
{
    if n > 0 {
        lemma_stitched_points(traces, tiles, (n - 1) as nat, batch, b, f, layout, moved);
        let before = stitched_points(traces, tiles, (n - 1) as nat, batch, b, f, layout);
        let after = stitched_points(traces, tiles, n, batch, b, f, layout);
        let index = (n - 1) * batch + b;
        let points = traces[index].frames@[f].points@;
        let kept = kept_points(points, points.len(), tiles[n - 1], layout);
        if before.contains(moved) {
            let j = choose|j: int| 0 <= j < before.len() && before[j] == moved;
            assert(after[j] == moved);
        }
        if has_frame(traces, index, f) {
            if kept.contains(moved) {
                let j = choose|j: int| 0 <= j < kept.len() && kept[j] == moved;
                assert(after[before.len() + j] == moved);
                assert(tile_gives(traces, tiles[n - 1], index, f, layout, moved));
            }
            if after.contains(moved) && !before.contains(moved) {
                let j = choose|j: int| 0 <= j < after.len() && after[j] == moved;
                assert(j >= before.len());
                assert(kept[j - before.len()] == moved);
                assert(tile_gives(traces, tiles[n - 1], index, f, layout, moved));
            }
        }
    }
}

/// The trace of a tile gives the fixation to frame `f`.
pub open spec fn tile_gives(
    traces: Seq<FrameFixationTrace>,
    tile: AutoGazeTile,
    index: int,
    f: int,
    layout: AutoGazeTileLayout,
    moved: FixationPoint,
) -> bool {
    let points = traces[index].frames@[f].points@;
    kept_points(points, points.len(), tile, layout).contains(moved)
}

/// The stop probability of a frame is the largest of its tiles' and of what it started from.
#[verifier::rlimit(40)]
pub proof fn lemma_stitched_stop(
    start: Binary32,
    traces: Seq<FrameFixationTrace>,
    n: nat,
    batch: nat,
    b: int,
    f: int,
)
    requires
        start.finite(),
        forall|t: int|
            0 <= t < n && #[trigger] has_frame(traces, t * batch + b, f) ==> traces[t * batch
                + b].frames@[f].stop_probability.finite(),
    ensures
        ({
            let stop = stitched_stop(start, traces, n, batch, b, f);
            &&& stop.finite()
            &&& stop.value() >= start.value()
            &&& forall|t: int|
                0 <= t < n && #[trigger] has_frame(traces, t * batch + b, f) ==> traces[t * batch
                    + b].frames@[f].stop_probability.value() <= stop.value()
            &&& stop == start || exists|t: int|
                0 <= t < n && #[trigger] has_frame(traces, t * batch + b, f) && stop == traces[t
                    * batch + b].frames@[f].stop_probability
        }),
    decreases n,
{
    if n > 0 {
        lemma_stitched_stop(start, traces, (n - 1) as nat, batch, b, f);
        let before = stitched_stop(start, traces, (n - 1) as nat, batch, b, f);
        let index = (n - 1) * batch + b;
        if has_frame(traces, index, f) {
            lemma_single_ordered(before, traces[index].frames@[f].stop_probability);
        }
    }
}

/// A frame keeps its most confident fixations, by falling confidence: as many as its budget, and
/// what is left out is no more confident than what is kept.
#[verifier::rlimit(40)]
pub proof fn lemma_tiled_frame_keeps_best(
    set: FixationSet,
    points: Seq<FixationPoint>,
    stop: Binary32,
    budget: nat,
    left: FixationPoint,
)
    requires
        is_tiled_frame(set, points, stop, budget),
        points.contains(left),
        forall|i: int| 0 <= i < points.len() ==> (#[trigger] points[i]).confidence.finite(),
    ensures
        ({
            let len = at_least_one(budget);
            let kept = if points.len() > len {
                len
            } else {
                points.len()
            };
            &&& set.points@.len() == len
            &&& forall|i: int| 0 <= i < kept ==> points.contains(#[trigger] set.points@[i])
            &&& forall|i: int, j: int|
                0 <= i <= j < kept ==> (#[trigger] set.points@[j]).confidence.value() <= (
                #[trigger] set.points@[i]).confidence.value()
            &&& forall|i: int|
                kept <= i < len ==> #[trigger] set.points@[i] == FixationPoint::placeholder()
            &&& set.points@.take(kept as int).contains(left) || kept == len && forall|i: int|
                0 <= i < kept ==> left.confidence.value() <= (
                #[trigger] set.points@[i]).confidence.value()
        }),
{
    let len = at_least_one(budget);
    let sorted = by_rank(points);
    lemma_by_rank(points);
    let kept = if points.len() > len {
        len
    } else {
        points.len()
    };
    assert forall|i: int| 0 <= i < kept implies points.contains(#[trigger] set.points@[i])
        && set.points@[i] == sorted[i] by {
        assert(set.points@[i] == sorted[i]);
        assert(sorted.contains(sorted[i]));
        lemma_ordered_keeps(sorted, points, sorted[i]);
    }
    assert forall|i: int, j: int| 0 <= i <= j < sorted.len() implies (
    #[trigger] sorted[j]).confidence.value() <= (#[trigger] sorted[i]).confidence.value() by {
        assert(sorted[i].rank() >= sorted[j].rank());
        assert(sorted.contains(sorted[i]) && sorted.contains(sorted[j]));
        lemma_ordered_keeps(sorted, points, sorted[i]);
        lemma_ordered_keeps(sorted, points, sorted[j]);
        if sorted[i].confidence.value() < sorted[j].confidence.value() {
            lemma_rank_follows_value(sorted[i].confidence, sorted[j].confidence);
        }
    }
    assert forall|i: int, j: int| 0 <= i <= j < kept implies (
    #[trigger] set.points@[j]).confidence.value() <= (
    #[trigger] set.points@[i]).confidence.value() by {
        assert(set.points@[i] == sorted[i] && set.points@[j] == sorted[j]);
    }
    lemma_ordered_keeps(sorted, points, left);
    let m = choose|m: int| 0 <= m < sorted.len() && sorted[m] == left;
    if m < kept {
        assert(set.points@.take(kept as int)[m] == left);
    } else {
        assert forall|i: int| 0 <= i < kept implies left.confidence.value() <= (
        #[trigger] set.points@[i]).confidence.value() by {
            assert(set.points@[i] == sorted[i]);
        }
    }
}

/// The patches that have changed are those with a finite change above the threshold, in their order.
proof fn lemma_changed_cells_are(scores: Seq<Binary32>, k: nat, threshold: Binary32)
    requires
        k <= scores.len() <= usize::MAX,
    ensures
        ({
            let cells = changed_cells(scores, k, threshold);
            &&& forall|j: int|
                0 <= j < cells.len() ==> (#[trigger] cells[j]).index < k && cells[j].score
                    == scores[cells[j].index as int] && cells[j].score.finite() && threshold.lt(
                    cells[j].score,
                )
            &&& forall|i: int, j: int|
                0 <= i < j < cells.len() ==> (#[trigger] cells[i]).index < (
                #[trigger] cells[j]).index
        }),
    decreases k,
{
    if k > 0 {
        lemma_changed_cells_are(scores, (k - 1) as nat, threshold);
        let before = changed_cells(scores, (k - 1) as nat, threshold);
        let cells = changed_cells(scores, k, threshold);
        assert forall|j: int| 0 <= j < cells.len() implies (#[trigger] cells[j]).index < k
            && cells[j].score == scores[cells[j].index as int] && cells[j].score.finite()
            && threshold.lt(cells[j].score) by {
            if j < before.len() {
                assert(cells[j] == before[j]);
            }
        }
        assert forall|i: int, j: int| 0 <= i < j < cells.len() implies (
        #[trigger] cells[i]).index < (#[trigger] cells[j]).index by {
            assert(cells[i] == before[i]);
            if j < before.len() {
                assert(cells[j] == before[j]);
            }
        }
    }
}

/// Fixations come only from patches whose change is above the threshold, the largest change first.
pub proof fn lemma_changes_in_order(
    scores: Seq<Binary32>,
    config: AutoGazePatchDiffConfig,
    a: int,
    b: int,
)
    requires
        scores.len() <= usize::MAX,
        0 <= a <= b < change_points(scores, config).len(),
    ensures
        exists|i: int, j: int|
            0 <= i < scores.len() && 0 <= j < scores.len() && #[trigger] is_change_of(
                change_points(scores, config)[a],
                scores,
                config,
                i,
            ) && #[trigger] is_change_of(change_points(scores, config)[b], scores, config, j)
                && scores[j].value() <= scores[i].value(),
{
    let cells = changed_cells(scores, scores.len(), config.threshold);
    let sorted = by_rank(cells);
    lemma_changed_cells_are(scores, scores.len(), config.threshold);
    lemma_by_rank(cells);
    assert(sorted.contains(sorted[a]) && sorted.contains(sorted[b]));
    lemma_ordered_keeps(sorted, cells, sorted[a]);
    lemma_ordered_keeps(sorted, cells, sorted[b]);
    let m = choose|m: int| 0 <= m < cells.len() && cells[m] == sorted[a];
    let n = choose|n: int| 0 <= n < cells.len() && cells[n] == sorted[b];
    let (i, j) = (cells[m].index as int, cells[n].index as int);
    assert(sorted[a].rank() >= sorted[b].rank());
    if scores[i].value() < scores[j].value() {
        lemma_rank_follows_value(scores[i], scores[j]);
    }
    assert(is_change_of(change_points(scores, config)[a], scores, config, i));
    assert(is_change_of(change_points(scores, config)[b], scores, config, j));
}

/// The fixation is that of patch `i`, whose change is finite and above the threshold.
pub open spec fn is_change_of(
    point: FixationPoint,
    scores: Seq<Binary32>,
    config: AutoGazePatchDiffConfig,
    i: int,
) -> bool {
    &&& scores[i].finite()
    &&& config.threshold.lt(scores[i])
    &&& point == cell_fixation(ScoredCell { index: i as usize, score: scores[i] }, config)
}

/// A change is as sure as its share of the threshold: for certain from the threshold on, and below
/// that as its share says, up to rounding. Without a threshold the change itself says how sure it
/// is.
#[verifier::rlimit(40)]
pub proof fn lemma_change_confidence(score: Binary32, threshold: Binary32)
    requires
        score.finite(),
        threshold.finite(),
        score.value() >= 0,
    ensures
        ({
            let c = change_confidence(score, threshold);
            let one = Binary32::one_value();
            let t = threshold.value();
            &&& t > 0 && score.value() >= t && score.over(threshold).finite() ==> c.value() == one
            &&& t > 0 && score.value() < t ==> is_unit(c) && c.value() < one && (2 * abs_nat(
                c.value() * t - score.value() * one,
            ) <= t || 0x100_0000 * abs_nat(c.value() * t - score.value() * one) <= score.value()
                * one)
            &&& t <= 0 && score.value() <= one ==> c == score
            &&& t <= 0 && score.value() > one ==> c.value() == one
        }),
{
    lemma_simple_values();
    let one = Binary32::one_value() as int;
    let (zero, unit) = (single(ZERO_BITS), single(ONE_BITS));
    lemma_single_ordered(zero, threshold);
    let (s, t) = (score.value(), threshold.value());
    if t > 0 {
        let share = score.over(threshold);
        if s < t {
            lemma_single_over_below_one(score, threshold);
            lemma_single_over_near(score, threshold);
            lemma_clamped(share, zero, unit);
            assert(s * one >= 0) by (nonlinear_arith)
                requires
                    s >= 0,
                    one > 0,
            ;
        } else if share.finite() {
            lemma_single_over_at_least_one(score, threshold);
            lemma_clamped(share, zero, unit);
        }
    } else {
        lemma_clamped(score, zero, unit);
    }
}

} // verus!
