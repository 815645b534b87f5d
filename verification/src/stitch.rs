//! Bringing the fixations of tiles back onto the frame.
//!
//! Where tiles lie side by side, the cells of all tiles form one grid over the frame, and a
//! fixation keeps its cell. Where tiles overlap, positions and extents are scaled.
use crate::arith::{capped, max_int, max_usize, min_int, min_usize, saturating_times};
use crate::ieee::Binary32;
use crate::order::{by_rank, sort_by_rank, Ranked};
use crate::tiles::{AutoGazeTile, AutoGazeTileLayout};
use crate::trace::{
    at_least_one, padded_points, single, unit_clamped, FixationPoint, FixationSet,
    FrameFixationTrace, HALF_BITS, ONE_BITS, ZERO_BITS,
};
use vstd::prelude::*;

verus! {

/// The number of cells along the frame where every tile has `tile_grid` of them.
pub open spec fn recovered_grid(source_extent: nat, tile_size: nat, tile_grid: nat) -> nat {
    at_least_one(
        capped(source_extent * at_least_one(tile_grid)) as nat / at_least_one(tile_size),
    )
}

pub fn recovered_scale_grid(source_extent: usize, tile_size: usize, tile_grid: usize) -> (r: usize)
    ensures
        r == recovered_grid(source_extent as nat, tile_size as nat, tile_grid as nat),
{
    let cells: usize = saturating_times(source_extent, max_usize(tile_grid, 1));
    max_usize(cells / max_usize(tile_size, 1), 1)
}

/// The cell of a grid that a position in the unit interval lies in.
pub open spec fn cell_of(position: Binary32, grid: nat) -> nat {
    let place = unit_clamped(position).times(Binary32::of_nat(at_least_one(grid)));
    min_int(place.to_usize(place.floor_int()) as int, at_least_one(grid) - 1) as nat
}

pub fn local_cell_index(position: Binary32, grid: usize) -> (r: usize)
    ensures
        r == cell_of(position, grid as nat),
        r < at_least_one(grid as nat),
{
    let cells: usize = max_usize(grid, 1);
    let place: Binary32 = position.clamped(single(ZERO_BITS), single(ONE_BITS)).times(
        Binary32::from_usize(cells),
    );
    min_usize(place.floor_usize(), cells - 1)
}

/// The side of the grid that a fixation came from; where it was not recorded, the one that its
/// extents agree on.
pub open spec fn grid_of(point: FixationPoint) -> Option<usize> {
    if point.grid > 0 {
        Some(point.grid)
    } else {
        let across = single(ONE_BITS).over(point.spec_cell_width());
        let down = single(ONE_BITS).over(point.spec_cell_height());
        if across.finite() && down.finite() && across.to_i64(across.round_int()) == down.to_i64(
            down.round_int(),
        ) {
            Some(at_least_one(across.to_usize(across.round_int()) as nat) as usize)
        } else {
            None
        }
    }
}

pub fn point_scale_grid(point: FixationPoint) -> (r: Option<usize>)
    ensures
        r == grid_of(point),
{
    match point.cell_grid() {
        Some(grid) => Some(grid),
        None => {
            let across: Binary32 = single(ONE_BITS).over(point.cell_width());
            let down: Binary32 = single(ONE_BITS).over(point.cell_height());
            if across.is_finite() && down.is_finite() && across.round_i64() == down.round_i64() {
                Some(max_usize(across.round_usize(), 1))
            } else {
                None
            }
        },
    }
}

/// A number between zero and one that lies in the middle of a cell.
pub open spec fn cell_middle(index: nat, grid: nat) -> Binary32 {
    Binary32::of_nat(index).plus(single(HALF_BITS)).over(Binary32::of_nat(grid))
}

/// The fixation at a cell of a grid over the frame.
pub open spec fn grid_point(
    col: nat,
    row: nat,
    grid_width: nat,
    grid_height: nat,
    confidence: Binary32,
    grid: usize,
) -> FixationPoint {
    FixationPoint {
        grid,
        ..FixationPoint::spec_with_extent(
            cell_middle(col, grid_width),
            cell_middle(row, grid_height),
            single(ONE_BITS).over(Binary32::of_nat(grid_width)),
            single(ONE_BITS).over(Binary32::of_nat(grid_height)),
            confidence,
        )
    }
}

/// A tile's index along one side, from where it starts.
pub open spec fn tile_index(start: nat, tile_size: nat) -> nat {
    start / at_least_one(tile_size)
}

/// The cell over the frame of a local cell of a tile.
pub open spec fn global_cell(tile: nat, local: nat, grid: nat) -> usize {
    capped((capped(tile * grid) + local) as nat)
}

/// The fixation of a tile that lies beside others, at its cell of the grid over the frame.
pub open spec fn side_by_side_point(
    point: FixationPoint,
    tile: AutoGazeTile,
    layout: AutoGazeTileLayout,
) -> Option<FixationPoint> {
    match grid_of(point) {
        None => None,
        Some(grid) => {
            let size = layout.tile_size as nat;
            let across = recovered_grid(layout.source_width as nat, size, grid as nat);
            let down = recovered_grid(layout.source_height as nat, size, grid as nat);
            let col = global_cell(
                tile_index(tile.x as nat, size),
                cell_of(point.x, grid as nat),
                grid as nat,
            );
            let row = global_cell(
                tile_index(tile.y as nat, size),
                cell_of(point.y, grid as nat),
                grid as nat,
            );
            if col >= across || row >= down {
                None
            } else {
                Some(grid_point(col as nat, row as nat, across, down, point.confidence, grid))
            }
        },
    }
}

/// A position of a tile, in pixels of the frame.
pub open spec fn frame_position(start: nat, position: Binary32, extent: nat) -> Binary32 {
    Binary32::of_nat(start).plus(position.times(Binary32::of_nat(extent)))
}

/// A cell extent of a tile, as a share of the frame.
pub open spec fn frame_extent(cell: Binary32, tile: nat, source: Binary32) -> Binary32 {
    cell.times(Binary32::of_nat(at_least_one(tile))).over(source)
}

/// The fixation of a tile that overlaps others, scaled to the frame.
pub open spec fn overlapping_point(
    point: FixationPoint,
    tile: AutoGazeTile,
    layout: AutoGazeTileLayout,
) -> Option<FixationPoint> {
    let width = Binary32::of_nat(at_least_one(layout.source_width as nat));
    let height = Binary32::of_nat(at_least_one(layout.source_height as nat));
    let x = frame_position(tile.x as nat, point.x, tile.width as nat);
    let y = frame_position(tile.y as nat, point.y, tile.height as nat);
    if width.le(x) || height.le(y) {
        None
    } else {
        Some(
            FixationPoint {
                grid: point.grid,
                ..FixationPoint::spec_with_extent(
                    x.over(width),
                    y.over(height),
                    frame_extent(point.spec_cell_width(), tile.width as nat, width),
                    frame_extent(point.spec_cell_height(), tile.height as nat, height),
                    point.confidence,
                )
            },
        )
    }
}

/// The fixation of a tile on the frame; `None` where it falls outside.
pub open spec fn remapped(
    point: FixationPoint,
    tile: AutoGazeTile,
    layout: AutoGazeTileLayout,
) -> Option<FixationPoint> {
    if layout.stride == layout.tile_size {
        side_by_side_point(point, tile, layout)
    } else {
        overlapping_point(point, tile, layout)
    }
}

fn plus_saturating(a: usize, b: usize) -> (r: usize)
    ensures
        r == capped((a + b) as nat),
{
    if b > usize::MAX - a {
        usize::MAX
    } else {
        a + b
    }
}

fn middle_of(index: usize, grid: usize) -> (r: Binary32)
    ensures
        r == cell_middle(index as nat, grid as nat),
{
    Binary32::from_usize(index).plus(single(HALF_BITS)).over(Binary32::from_usize(grid))
}

pub fn remap_non_overlapping_tile_point(
    point: FixationPoint,
    tile: AutoGazeTile,
    layout: &AutoGazeTileLayout,
) -> (r: Option<FixationPoint>)
    ensures
        r == side_by_side_point(point, tile, *layout),
{
    let grid: usize = match point_scale_grid(point) {
        Some(grid) => grid,
        None => {
            return None;
        },
    };
    let tile_size: usize = max_usize(layout.tile_size, 1);
    let grid_width: usize = recovered_scale_grid(layout.source_width, tile_size, grid);
    let grid_height: usize = recovered_scale_grid(layout.source_height, tile_size, grid);
    let tile_col: usize = tile.x / tile_size;
    let tile_row: usize = tile.y / tile_size;
    let local_col: usize = local_cell_index(point.x, grid);
    let local_row: usize = local_cell_index(point.y, grid);
    let col: usize = plus_saturating(saturating_times(tile_col, grid), local_col);
    let row: usize = plus_saturating(saturating_times(tile_row, grid), local_row);
    if col >= grid_width || row >= grid_height {
        return None;
    }
    let one: Binary32 = single(ONE_BITS);
    Some(
        FixationPoint::with_grid_extent(
            middle_of(col, grid_width),
            middle_of(row, grid_height),
            one.over(Binary32::from_usize(grid_width)),
            one.over(Binary32::from_usize(grid_height)),
            point.confidence,
            grid,
        ),
    )
}

pub fn remap_tile_point(
    point: FixationPoint,
    tile: AutoGazeTile,
    layout: &AutoGazeTileLayout,
) -> (r: Option<FixationPoint>)
    ensures
        r == remapped(point, tile, *layout),
{
    if layout.stride == layout.tile_size {
        return remap_non_overlapping_tile_point(point, tile, layout);
    }
    remap_overlapping_tile_point(point, tile, layout)
}

fn position_in_frame(start: usize, position: Binary32, extent: usize) -> (r: Binary32)
    ensures
        r == frame_position(start as nat, position, extent as nat),
{
    Binary32::from_usize(start).plus(position.times(Binary32::from_usize(extent)))
}

fn extent_in_frame(cell: Binary32, tile: usize, source: Binary32) -> (r: Binary32)
    ensures
        r == frame_extent(cell, tile as nat, source),
{
    cell.times(Binary32::from_usize(max_usize(tile, 1))).over(source)
}

fn remap_overlapping_tile_point(
    point: FixationPoint,
    tile: AutoGazeTile,
    layout: &AutoGazeTileLayout,
) -> (r: Option<FixationPoint>)
    ensures
        r == overlapping_point(point, tile, *layout),
{
    let width: Binary32 = Binary32::from_usize(max_usize(layout.source_width, 1));
    let height: Binary32 = Binary32::from_usize(max_usize(layout.source_height, 1));
    let x: Binary32 = position_in_frame(tile.x, point.x, tile.width);
    let y: Binary32 = position_in_frame(tile.y, point.y, tile.height);
    if width.le(x) || height.le(y) {
        return None;
    }
    let cell_width: Binary32 = extent_in_frame(point.cell_width(), tile.width, width);
    let cell_height: Binary32 = extent_in_frame(point.cell_height(), tile.height, height);
    let moved: FixationPoint = FixationPoint::with_grid_extent(
        x.over(width),
        y.over(height),
        cell_width,
        cell_height,
        point.confidence,
        point.grid,
    );
    Some(moved)
}

impl Ranked for FixationPoint {
    /// The place of the confidence in the total order.
    open spec fn rank(self) -> int {
        self.confidence.total_rank()
    }

    fn outranks(&self, other: &Self) -> (r: bool) {
        other.confidence.total_before(self.confidence)
    }
}

/// The points by falling confidence, those of equal confidence in their old order.
pub fn sort_points_by_confidence(points: &[FixationPoint]) -> (r: Vec<FixationPoint>)
    ensures
        r@ == by_rank(points@),
{
    sort_by_rank(points)
}

/// The fixations of a tile that have confidence and fall on the frame, out of the first `k`.
pub open spec fn kept_points(
    points: Seq<FixationPoint>,
    k: nat,
    tile: AutoGazeTile,
    layout: AutoGazeTileLayout,
) -> Seq<FixationPoint>
    decreases k,
{
    if k == 0 {
        Seq::empty()
    } else {
        let before = kept_points(points, (k - 1) as nat, tile, layout);
        let point = points[k - 1];
        match remapped(point, tile, layout) {
            Some(moved) => if single(ZERO_BITS).lt(point.confidence) {
                before.push(moved)
            } else {
                before
            },
            None => before,
        }
    }
}

/// The trace of a tile for one row of the batch holds frame `f`.
pub open spec fn has_frame(traces: Seq<FrameFixationTrace>, index: int, f: int) -> bool {
    0 <= index < traces.len() && 0 <= f < traces[index].frames@.len()
}

/// What the first `n` tiles contribute to frame `f` of row `b`.
pub open spec fn stitched_points(
    traces: Seq<FrameFixationTrace>,
    tiles: Seq<AutoGazeTile>,
    n: nat,
    batch: nat,
    b: int,
    f: int,
    layout: AutoGazeTileLayout,
) -> Seq<FixationPoint>
    decreases n,
{
    if n == 0 {
        Seq::empty()
    } else {
        let before = stitched_points(traces, tiles, (n - 1) as nat, batch, b, f, layout);
        let index = (n - 1) * batch + b;
        if has_frame(traces, index, f) {
            let points = traces[index].frames@[f].points@;
            before + kept_points(points, points.len(), tiles[n - 1], layout)
        } else {
            before
        }
    }
}

/// The largest stop probability of frame `f` of row `b` over `start` and the first `n` tiles.
pub open spec fn stitched_stop(
    start: Binary32,
    traces: Seq<FrameFixationTrace>,
    n: nat,
    batch: nat,
    b: int,
    f: int,
) -> Binary32
    decreases n,
{
    if n == 0 {
        start
    } else {
        let before = stitched_stop(start, traces, (n - 1) as nat, batch, b, f);
        let index = (n - 1) * batch + b;
        if has_frame(traces, index, f) {
            before.larger(traces[index].frames@[f].stop_probability)
        } else {
            before
        }
    }
}

/// Where the trace of a tile's row stands, if anywhere.
fn trace_index(tile: usize, batch: usize, b: usize, len: usize) -> (r: Option<usize>)
    ensures
        match r {
            Some(index) => index == tile * batch + b && index < len,
            None => tile * batch + b >= len,
        },
{
    match tile.checked_mul(batch) {
        Some(start) => match start.checked_add(b) {
            Some(index) => if index < len {
                Some(index)
            } else {
                None
            },
            None => None,
        },
        None => None,
    }
}

fn keep_points(
    points: &[FixationPoint],
    tile: AutoGazeTile,
    layout: &AutoGazeTileLayout,
    kept: &mut Vec<FixationPoint>,
)
    ensures
        final(kept)@ == old(kept)@ + kept_points(points@, points@.len(), tile, *layout),
{
    let mut k: usize = 0;
    assert(kept@ =~= old(kept)@ + kept_points(points@, 0, tile, *layout));
    while k < points.len()
        invariant
            k <= points@.len(),
            kept@ == old(kept)@ + kept_points(points@, k as nat, tile, *layout),
        decreases points@.len() - k,
    {
        let point: FixationPoint = points[k];
        if single(ZERO_BITS).lt(point.confidence) {
            match remap_tile_point(point, tile, layout) {
                Some(moved) => {
                    kept.push(moved);
                },
                None => {},
            }
        }
        assert(kept@ =~= old(kept)@ + kept_points(points@, (k + 1) as nat, tile, *layout));
        k = k + 1;
    }
}

fn stitch_frame(
    traces: &[FrameFixationTrace],
    tiles: &[AutoGazeTile],
    batch: usize,
    b: usize,
    f: usize,
    layout: &AutoGazeTileLayout,
    stop: Binary32,
) -> (r: (Vec<FixationPoint>, Binary32))
    ensures
        r.0@ == stitched_points(
            traces@,
            tiles@,
            tiles@.len(),
            batch as nat,
            b as int,
            f as int,
            *layout,
        ),
        r.1 == stitched_stop(stop, traces@, tiles@.len(), batch as nat, b as int, f as int),
{
    let mut points: Vec<FixationPoint> = Vec::new();
    let mut largest: Binary32 = stop;
    let mut t: usize = 0;
    while t < tiles.len()
        invariant
            t <= tiles@.len(),
            points@ == stitched_points(
                traces@,
                tiles@,
                t as nat,
                batch as nat,
                b as int,
                f as int,
                *layout,
            ),
            largest == stitched_stop(stop, traces@, t as nat, batch as nat, b as int, f as int),
        decreases tiles@.len() - t,
    {
        match trace_index(t, batch, b, traces.len()) {
            Some(index) => {
                if f < traces[index].frames.len() {
                    largest = largest.larger(traces[index].frames[f].stop_probability);
                    keep_points(&traces[index].frames[f].points, tiles[t], layout, &mut points);
                }
            },
            None => {},
        }
        t = t + 1;
    }
    (points, largest)
}

/// The lists of a row, as sequences.
pub open spec fn point_lists(frames: Seq<Vec<FixationPoint>>) -> Seq<Seq<FixationPoint>> {
    Seq::new(frames.len(), |f: int| frames[f]@)
}

/// `after` is `before` with what the tiles contribute to the first `time` frames of row `b`.
pub open spec fn row_stitched(
    before: Seq<Seq<FixationPoint>>,
    after: Seq<Seq<FixationPoint>>,
    traces: Seq<FrameFixationTrace>,
    tiles: Seq<AutoGazeTile>,
    batch: nat,
    time: int,
    b: int,
    layout: AutoGazeTileLayout,
) -> bool {
    &&& after.len() == before.len()
    &&& forall|f: int|
        0 <= f < after.len() ==> #[trigger] after[f] == (if f < time {
            before[f] + stitched_points(traces, tiles, tiles.len(), batch, b, f, layout)
        } else {
            before[f]
        })
}

/// `after` is `before` with the stop probabilities of the tiles in the first `time` frames of row
/// `b`.
pub open spec fn stops_stitched(
    before: Seq<Binary32>,
    after: Seq<Binary32>,
    traces: Seq<FrameFixationTrace>,
    tiles: nat,
    batch: nat,
    time: int,
    b: int,
) -> bool {
    &&& after.len() == before.len()
    &&& forall|f: int|
        0 <= f < after.len() ==> #[trigger] after[f] == (if f < time {
            stitched_stop(before[f], traces, tiles, batch, b, f)
        } else {
            before[f]
        })
}

fn stitch_row(
    traces: &[FrameFixationTrace],
    tiles: &[AutoGazeTile],
    batch: usize,
    time: usize,
    b: usize,
    layout: &AutoGazeTileLayout,
    frame_points: &mut Vec<Vec<FixationPoint>>,
    stops: &mut Vec<Binary32>,
)
    requires
        old(frame_points)@.len() >= time,
        old(stops)@.len() >= time,
    ensures
        row_stitched(
            point_lists(old(frame_points)@),
            point_lists(final(frame_points)@),
            traces@,
            tiles@,
            batch as nat,
            time as int,
            b as int,
            *layout,
        ),
        stops_stitched(
            old(stops)@,
            final(stops)@,
            traces@,
            tiles@.len(),
            batch as nat,
            time as int,
            b as int,
        ),
{
    let mut f: usize = 0;
    while f < time
        invariant
            f <= time,
            time <= frame_points@.len(),
            time <= stops@.len(),
            row_stitched(
                point_lists(old(frame_points)@),
                point_lists(frame_points@),
                traces@,
                tiles@,
                batch as nat,
                f as int,
                b as int,
                *layout,
            ),
            stops_stitched(
                old(stops)@,
                stops@,
                traces@,
                tiles@.len(),
                batch as nat,
                f as int,
                b as int,
            ),
        decreases time - f,
    {
        let ghost points_before = point_lists(frame_points@);
        let ghost stops_before = stops@;
        assert(points_before[f as int] == point_lists(old(frame_points)@)[f as int]);
        assert(stops_before[f as int] == old(stops)@[f as int]);
        let (mut points, stop): (Vec<FixationPoint>, Binary32) = stitch_frame(
            traces,
            tiles,
            batch,
            b,
            f,
            layout,
            stops[f],
        );
        stops.set(f, stop);
        frame_points[f].append(&mut points);
        proof {
            let now = point_lists(frame_points@);
            assert forall|g: int| 0 <= g < now.len() && g != f implies #[trigger] now[g]
                == points_before[g] by {}
            assert(now[f as int] == points_before[f as int] + stitched_points(
                traces@,
                tiles@,
                tiles@.len(),
                batch as nat,
                b as int,
                f as int,
                *layout,
            ));
        }
        f = f + 1;
    }
}

/// Adds the fixations of a run of tiles to the frames of every row. The trace of row `b` of the
/// `i`th tile stands at `i * batch + b`.
pub fn collect_tile_trace_points(
    tile_traces: &[FrameFixationTrace],
    tiles: &[AutoGazeTile],
    batch: usize,
    time: usize,
    layout: &AutoGazeTileLayout,
    frame_points: &mut Vec<Vec<Vec<FixationPoint>>>,
    stop_probabilities: &mut Vec<Vec<Binary32>>,
)
    requires
        old(frame_points)@.len() >= batch,
        old(stop_probabilities)@.len() >= batch,
        forall|b: int| 0 <= b < batch ==> (#[trigger] old(frame_points)@[b])@.len() >= time,
        forall|b: int| 0 <= b < batch ==> (#[trigger] old(stop_probabilities)@[b])@.len() >= time,
    ensures
        final(frame_points)@.len() == old(frame_points)@.len(),
        final(stop_probabilities)@.len() == old(stop_probabilities)@.len(),
        forall|b: int|
            batch <= b < final(frame_points)@.len() ==> #[trigger] final(frame_points)@[b] == old(frame_points)@[b],
        forall|b: int|
            batch <= b < final(stop_probabilities)@.len() ==> #[trigger] final(stop_probabilities)@[b] == old(stop_probabilities)@[b],
        forall|b: int|
            0 <= b < batch ==> row_stitched(
                point_lists(old(frame_points)@[b]@),
                point_lists((#[trigger] final(frame_points)@[b])@),
                tile_traces@,
                tiles@,
                batch as nat,
                time as int,
                b,
                *layout,
            ),
        forall|b: int|
            0 <= b < batch ==> stops_stitched(
                old(stop_probabilities)@[b]@,
                (#[trigger] final(stop_probabilities)@[b])@,
                tile_traces@,
                tiles@.len(),
                batch as nat,
                time as int,
                b,
            ),
{
    let mut b: usize = 0;
    while b < batch
        invariant
            b <= batch,
            frame_points@.len() == old(frame_points)@.len(),
            stop_probabilities@.len() == old(stop_probabilities)@.len(),
            frame_points@.len() >= batch,
            stop_probabilities@.len() >= batch,
            forall|c: int| 0 <= c < batch ==> (#[trigger] old(frame_points)@[c])@.len() >= time,
            forall|c: int|
                0 <= c < batch ==> (#[trigger] old(stop_probabilities)@[c])@.len() >= time,
            forall|c: int|
                b <= c < frame_points@.len() ==> #[trigger] frame_points@[c] == old(frame_points)@[c],
            forall|c: int|
                b <= c < stop_probabilities@.len() ==> #[trigger] stop_probabilities@[c] == old(stop_probabilities)@[c],
            forall|c: int|
                0 <= c < b ==> row_stitched(
                    point_lists(old(frame_points)@[c]@),
                    point_lists((#[trigger] frame_points@[c])@),
                    tile_traces@,
                    tiles@,
                    batch as nat,
                    time as int,
                    c,
                    *layout,
                ),
            forall|c: int|
                0 <= c < b ==> stops_stitched(
                    old(stop_probabilities)@[c]@,
                    (#[trigger] stop_probabilities@[c])@,
                    tile_traces@,
                    tiles@.len(),
                    batch as nat,
                    time as int,
                    c,
                ),
        decreases batch - b,
    {
        assert(frame_points@[b as int] == old(frame_points)@[b as int]);
        assert(stop_probabilities@[b as int] == old(stop_probabilities)@[b as int]);
        stitch_row(
            tile_traces,
            tiles,
            batch,
            time,
            b,
            layout,
            &mut frame_points[b],
            &mut stop_probabilities[b],
        );
        b = b + 1;
    }
}

/// `batch` rows of `time` empty lists.
pub fn empty_batch_frame_points(batch: usize, time: usize) -> (r: Vec<Vec<Vec<FixationPoint>>>)
    ensures
        r@.len() == batch,
        forall|b: int|
            0 <= b < batch ==> point_lists((#[trigger] r@[b])@) == Seq::new(
                time as nat,
                |f: int| Seq::<FixationPoint>::empty(),
            ),
{
    let mut rows: Vec<Vec<Vec<FixationPoint>>> = Vec::new();
    let mut b: usize = 0;
    while b < batch
        invariant
            b <= batch,
            rows@.len() == b,
            forall|c: int|
                0 <= c < b ==> point_lists((#[trigger] rows@[c])@) == Seq::new(
                    time as nat,
                    |f: int| Seq::<FixationPoint>::empty(),
                ),
        decreases batch - b,
    {
        let mut frames: Vec<Vec<FixationPoint>> = Vec::new();
        let mut f: usize = 0;
        while f < time
            invariant
                f <= time,
                frames@.len() == f,
                forall|g: int|
                    0 <= g < f ==> (#[trigger] frames@[g])@ == Seq::<FixationPoint>::empty(),
            decreases time - f,
        {
            frames.push(Vec::new());
            f = f + 1;
        }
        assert(point_lists(frames@) =~= Seq::new(
            time as nat,
            |f: int| Seq::<FixationPoint>::empty(),
        ));
        rows.push(frames);
        b = b + 1;
    }
    rows
}

/// The points of every frame of every trace.
pub fn traces_to_frame_points(traces: Vec<FrameFixationTrace>) -> (r: Vec<Vec<Vec<FixationPoint>>>)
    ensures
        r@.len() == traces@.len(),
        forall|b: int|
            0 <= b < r@.len() ==> point_lists((#[trigger] r@[b])@) == Seq::new(
                traces@[b].frames@.len(),
                |f: int| traces@[b].frames@[f].points@,
            ),
{
    let mut rows: Vec<Vec<Vec<FixationPoint>>> = Vec::new();
    let mut b: usize = 0;
    while b < traces.len()
        invariant
            b <= traces@.len(),
            rows@.len() == b,
            forall|c: int|
                0 <= c < b ==> point_lists((#[trigger] rows@[c])@) == Seq::new(
                    traces@[c].frames@.len(),
                    |f: int| traces@[c].frames@[f].points@,
                ),
        decreases traces@.len() - b,
    {
        let mut frames: Vec<Vec<FixationPoint>> = Vec::new();
        let mut f: usize = 0;
        while f < traces[b].frames.len()
            invariant
                b < traces@.len(),
                f <= traces@[b as int].frames@.len(),
                frames@.len() == f,
                forall|g: int|
                    0 <= g < f ==> (#[trigger] frames@[g])@
                        == traces@[b as int].frames@[g].points@,
            decreases traces@[b as int].frames@.len() - f,
        {
            let points: Vec<FixationPoint> = copied_points(&traces[b].frames[f].points);
            frames.push(points);
            f = f + 1;
        }
        assert(point_lists(frames@) =~= Seq::new(
            traces@[b as int].frames@.len(),
            |f: int| traces@[b as int].frames@[f].points@,
        ));
        rows.push(frames);
        b = b + 1;
    }
    rows
}

pub(crate) fn copied_points(points: &[FixationPoint]) -> (r: Vec<FixationPoint>)
    ensures
        r@ == points@,
{
    let mut copy: Vec<FixationPoint> = Vec::new();
    let mut i: usize = 0;
    while i < points.len()
        invariant
            i <= points@.len(),
            copy@ == points@.take(i as int),
        decreases points@.len() - i,
    {
        copy.push(points[i]);
        assert(copy@ =~= points@.take(i as int + 1));
        i = i + 1;
    }
    assert(copy@ =~= points@);
    copy
}

/// Puts the points of every frame in the order of falling confidence.
pub fn sort_batch_frame_points_by_confidence(frame_points: &mut Vec<Vec<Vec<FixationPoint>>>)
    ensures
        final(frame_points)@.len() == old(frame_points)@.len(),
        forall|b: int|
            0 <= b < final(frame_points)@.len() ==> point_lists((#[trigger] final(frame_points)@[b])@)
                == Seq::new(
                old(frame_points)@[b]@.len(),
                |f: int| by_rank(old(frame_points)@[b]@[f]@),
            ),
{
    let mut b: usize = 0;
    while b < frame_points.len()
        invariant
            b <= frame_points@.len(),
            frame_points@.len() == old(frame_points)@.len(),
            forall|c: int|
                0 <= c < b ==> point_lists((#[trigger] frame_points@[c])@) == Seq::new(
                    old(frame_points)@[c]@.len(),
                    |f: int| by_rank(old(frame_points)@[c]@[f]@),
                ),
            forall|c: int|
                b <= c < frame_points@.len() ==> #[trigger] frame_points@[c] == old(frame_points)@[c],
        decreases frame_points@.len() - b,
    {
        let mut frames: Vec<Vec<FixationPoint>> = Vec::new();
        let mut f: usize = 0;
        while f < frame_points[b].len()
            invariant
                b < frame_points@.len(),
                f <= frame_points@[b as int]@.len(),
                frames@.len() == f,
                forall|g: int|
                    0 <= g < f ==> (#[trigger] frames@[g])@ == by_rank(
                        frame_points@[b as int]@[g]@,
                    ),
            decreases frame_points@[b as int]@.len() - f,
        {
            let sorted: Vec<FixationPoint> = sort_points_by_confidence(&frame_points[b][f]);
            frames.push(sorted);
            f = f + 1;
        }
        assert(point_lists(frames@) =~= Seq::new(
            old(frame_points)@[b as int]@.len(),
            |f: int| by_rank(old(frame_points)@[b as int]@[f]@),
        ));
        frame_points.set(b, frames);
        b = b + 1;
    }
}

/// `set` holds exactly `budget` fixations, at least one: the most confident points given, then
/// placeholders.
pub open spec fn is_tiled_frame(
    set: FixationSet,
    points: Seq<FixationPoint>,
    stop: Binary32,
    budget: nat,
) -> bool {
    let sorted = by_rank(points);
    let len = at_least_one(budget);
    &&& set.points@ == padded_points(
        if sorted.len() > len {
            sorted.take(len as int)
        } else {
            sorted
        },
        len,
    )
    &&& set.points@.len() == len
    &&& set.stop_probability == unit_clamped(stop)
}

/// `trace` is made of the frames that have both points and a stop probability.
pub open spec fn is_tiled_trace(
    trace: FrameFixationTrace,
    frames: Seq<Vec<FixationPoint>>,
    stops: Seq<Binary32>,
    budget: nat,
) -> bool {
    &&& trace.frames@.len() == min_int(frames.len() as int, stops.len() as int)
    &&& forall|f: int|
        0 <= f < trace.frames@.len() ==> is_tiled_frame(
            #[trigger] trace.frames@[f],
            frames[f]@,
            stops[f],
            budget,
        )
}

fn tiled_trace(frames: &[Vec<FixationPoint>], stops: &[Binary32], budget: usize) -> (r:
    FrameFixationTrace)
    ensures
        is_tiled_trace(r, frames@, stops@, budget as nat),
{
    let mut sets: Vec<FixationSet> = Vec::new();
    let n: usize = min_usize(frames.len(), stops.len());
    let mut f: usize = 0;
    while f < n
        invariant
            f <= n,
            n <= frames@.len(),
            n <= stops@.len(),
            sets@.len() == f,
            forall|g: int|
                0 <= g < f ==> is_tiled_frame(
                    #[trigger] sets@[g],
                    frames@[g]@,
                    stops@[g],
                    budget as nat,
                ),
        decreases n - f,
    {
        let points: Vec<FixationPoint> = sort_points_by_confidence(&frames[f]);
        sets.push(FixationSet::new(points, stops[f], budget));
        f = f + 1;
    }
    FrameFixationTrace::new(sets)
}

/// Traces with exactly `frame_budget` fixations a frame, at least one.
pub fn build_tiled_traces(
    frame_points: &Vec<Vec<Vec<FixationPoint>>>,
    stop_probabilities: &Vec<Vec<Binary32>>,
    frame_budget: usize,
) -> (r: Vec<FrameFixationTrace>)
    ensures
        r@.len() == min_int(frame_points@.len() as int, stop_probabilities@.len() as int),
        forall|b: int|
            0 <= b < r@.len() ==> is_tiled_trace(
                #[trigger] r@[b],
                frame_points@[b]@,
                stop_probabilities@[b]@,
                frame_budget as nat,
            ),
{
    let mut traces: Vec<FrameFixationTrace> = Vec::new();
    let n: usize = min_usize(frame_points.len(), stop_probabilities.len());
    let mut b: usize = 0;
    while b < n
        invariant
            b <= n,
            n <= frame_points@.len(),
            n <= stop_probabilities@.len(),
            traces@.len() == b,
            forall|c: int|
                0 <= c < b ==> is_tiled_trace(
                    #[trigger] traces@[c],
                    frame_points@[c]@,
                    stop_probabilities@[c]@,
                    frame_budget as nat,
                ),
        decreases n - b,
    {
        let trace: FrameFixationTrace = tiled_trace(
            &frame_points[b],
            &stop_probabilities[b],
            frame_budget,
        );
        traces.push(trace);
        b = b + 1;
    }
    traces
}

/// The fixations of a frame that is stitched from tiles: the tokens of a tile, or more where more
/// are shown, times the number of tiles.
pub fn tiled_frame_budget(max_gaze_tokens_each_frame: usize, k: usize, tile_count: usize) -> (r:
    usize)
    ensures
        r == capped(
            max_int(max_gaze_tokens_each_frame as int, at_least_one(k as nat) as int) as nat
                * at_least_one(tile_count as nat),
        ),
{
    saturating_times(
        max_usize(max_gaze_tokens_each_frame, max_usize(k, 1)),
        max_usize(tile_count, 1),
    )
}

/// The cells of tiles that lie side by side make one grid without holes or overlaps: every cell of
/// a tile has a cell of the frame, and every cell of the frame comes from one cell of one tile.
pub proof fn lemma_cells_fill_frame(tiles: nat, size: nat, grid: nat)
    requires
        tiles > 0,
        size > 0,
        grid > 0,
        tiles * size * grid <= usize::MAX,
    ensures
        recovered_grid(tiles * size, size, grid) == tiles * grid,
        forall|tile: nat, local: nat|
            tile < tiles && local < grid ==> #[trigger] global_cell(tile, local, grid) == tile
                * grid + local && tile * grid + local < tiles * grid,
        forall|cell: nat|
            #![trigger cell / grid]
            cell < tiles * grid ==> cell / grid < tiles && global_cell(
                cell / grid,
                cell % grid,
                grid,
            ) == cell,
        forall|tile: nat, local: nat, other_tile: nat, other_local: nat|
            #![trigger global_cell(tile, local, grid), global_cell(other_tile, other_local, grid)]
            tile < tiles && local < grid && other_tile < tiles && other_local < grid && global_cell(
                tile,
                local,
                grid,
            ) == global_cell(other_tile, other_local, grid) ==> tile == other_tile && local
                == other_local,
{
    assert(tiles * size * grid == (tiles * grid) * size) by (nonlinear_arith);
    vstd::arithmetic::div_mod::lemma_fundamental_div_mod_converse(
        (tiles * size * grid) as int,
        size as int,
        (tiles * grid) as int,
        0,
    );
    assert(tiles * grid >= 1) by (nonlinear_arith)
        requires
            tiles >= 1,
            grid >= 1,
    ;
    assert(tiles * grid <= tiles * size * grid) by (nonlinear_arith)
        requires
            tiles * size * grid == (tiles * grid) * size,
            size >= 1,
            tiles * grid >= 1,
    ;
    assert forall|tile: nat, local: nat| tile < tiles && local < grid implies #[trigger] global_cell(
        tile,
        local,
        grid,
    ) == tile * grid + local && tile * grid + local < tiles * grid by {
        crate::readout::lemma_cell_index(tile, local, tiles, grid);
    }
    assert forall|cell: nat|
        #![trigger cell / grid]
        cell < tiles * grid implies cell / grid < tiles && global_cell(
        cell / grid,
        cell % grid,
        grid,
    ) == cell by {
        vstd::arithmetic::div_mod::lemma_fundamental_div_mod(cell as int, grid as int);
        let q = cell / grid;
        assert(q < tiles && q * grid == grid * q) by (nonlinear_arith)
            requires
                cell == grid * q + cell % grid,
                cell % grid >= 0,
                cell < tiles * grid,
                grid > 0,
        ;
        assert(global_cell(q, cell % grid, grid) == q * grid + cell % grid);
    }
    assert forall|tile: nat, local: nat, other_tile: nat, other_local: nat|
        #![trigger global_cell(tile, local, grid), global_cell(other_tile, other_local, grid)]
        tile < tiles && local < grid && other_tile < tiles && other_local < grid && global_cell(
            tile,
            local,
            grid,
        ) == global_cell(other_tile, other_local, grid) implies tile == other_tile && local
        == other_local by {
        let c = (tile * grid + local) as int;
        vstd::arithmetic::div_mod::lemma_fundamental_div_mod_converse(
            c,
            grid as int,
            tile as int,
            local as int,
        );
        vstd::arithmetic::div_mod::lemma_fundamental_div_mod_converse(
            c,
            grid as int,
            other_tile as int,
            other_local as int,
        );
    }
}

/// Stitching tiles in two runs gives what stitching them in one run gives.
pub proof fn lemma_runs_join(
    traces: Seq<FrameFixationTrace>,
    tiles: Seq<AutoGazeTile>,
    n: nat,
    m: nat,
    batch: nat,
    b: int,
    f: int,
    layout: AutoGazeTileLayout,
    start: Binary32,
)
    requires
        n + m <= tiles.len(),
        n * batch <= traces.len(),
        0 <= b < batch,
    ensures
        stitched_points(traces, tiles, n + m, batch, b, f, layout) == stitched_points(
            traces.take((n * batch) as int),
            tiles.take(n as int),
            n,
            batch,
            b,
            f,
            layout,
        ) + stitched_points(
            traces.skip((n * batch) as int),
            tiles.skip(n as int),
            m,
            batch,
            b,
            f,
            layout,
        ),
        stitched_stop(start, traces, n + m, batch, b, f) == stitched_stop(
            stitched_stop(start, traces.take((n * batch) as int), n, batch, b, f),
            traces.skip((n * batch) as int),
            m,
            batch,
            b,
            f,
        ),
    decreases m,
{
    let first = traces.take((n * batch) as int);
    let rest = traces.skip((n * batch) as int);
    let early = tiles.take(n as int);
    let late = tiles.skip(n as int);
    if m == 0 {
        lemma_first_run(traces, first, tiles, early, n, n, batch, b, f, layout, start);
        assert(stitched_points(rest, late, 0, batch, b, f, layout) =~= Seq::empty());
        assert(stitched_points(first, early, n, batch, b, f, layout) + stitched_points(
            rest,
            late,
            0,
            batch,
            b,
            f,
            layout,
        ) =~= stitched_points(first, early, n, batch, b, f, layout));
    } else {
        lemma_runs_join(traces, tiles, n, (m - 1) as nat, batch, b, f, layout, start);
        let local = (m - 1) * batch + b;
        let index = (n + m - 1) * batch + b;
        assert(index == n * batch + local) by (nonlinear_arith)
            requires
                index == (n + m - 1) * batch + b,
                local == (m - 1) * batch + b,
        ;
        assert(local >= 0) by (nonlinear_arith)
            requires
                local == (m - 1) * batch + b,
                m >= 1,
                b >= 0,
        ;
        assert(has_frame(traces, index, f) == has_frame(rest, local, f)) by {
            if 0 <= local < rest.len() {
                assert(rest[local] == traces[index]);
            }
        }
        if has_frame(rest, local, f) {
            assert(rest[local] == traces[index]);
            assert(late[m - 1] == tiles[n + m - 1]);
            let points = traces[index].frames@[f].points@;
            let kept = kept_points(points, points.len(), tiles[n + m - 1], layout);
            let a = stitched_points(first, early, n, batch, b, f, layout);
            let c = stitched_points(rest, late, (m - 1) as nat, batch, b, f, layout);
            assert((a + c) + kept =~= a + (c + kept));
        }
    }
}

proof fn lemma_first_run(
    traces: Seq<FrameFixationTrace>,
    first: Seq<FrameFixationTrace>,
    tiles: Seq<AutoGazeTile>,
    early: Seq<AutoGazeTile>,
    k: nat,
    n: nat,
    batch: nat,
    b: int,
    f: int,
    layout: AutoGazeTileLayout,
    start: Binary32,
)
    requires
        k <= n <= tiles.len(),
        n * batch <= traces.len(),
        first == traces.take((n * batch) as int),
        early == tiles.take(n as int),
        0 <= b < batch,
    ensures
        stitched_points(traces, tiles, k, batch, b, f, layout) == stitched_points(
            first,
            early,
            k,
            batch,
            b,
            f,
            layout,
        ),
        stitched_stop(start, traces, k, batch, b, f) == stitched_stop(
            start,
            first,
            k,
            batch,
            b,
            f,
        ),
    decreases k,
{
    if k > 0 {
        lemma_first_run(
            traces,
            first,
            tiles,
            early,
            (k - 1) as nat,
            n,
            batch,
            b,
            f,
            layout,
            start,
        );
        let index = (k - 1) * batch + b;
        assert(0 <= index < n * batch) by (nonlinear_arith)
            requires
                index == (k - 1) * batch + b,
                1 <= k <= n,
                0 <= b < batch,
        ;
        assert(first[index] == traces[index]);
        assert(early[k - 1] == tiles[k - 1]);
    }
}

} // verus!
