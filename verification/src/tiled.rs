//! Running a clip tile by tile.
//!
//! Tiles are run in batches. After each batch its traces are stitched onto the frames; what comes
//! out does not depend on how the tiles were batched.
use crate::arith::{capped, max_int, min_int, min_usize};
use crate::ieee::Binary32;
use crate::order::{by_rank, lemma_by_rank, lemma_ordered_keeps};
use crate::stitch::{
    build_tiled_traces, collect_tile_trace_points, empty_batch_frame_points, is_tiled_frame,
    is_tiled_trace, kept_points, lemma_runs_join, point_lists, row_stitched, sort_batch_frame_points_by_confidence,
    stitched_points, stitched_stop, stops_stitched, tiled_frame_budget,
};
use crate::tiles::{AutoGazeTile, AutoGazeTileLayout};
use crate::trace::{at_least_one, single, FixationPoint, FrameFixationTrace, ZERO_BITS};
use vstd::prelude::*;
use vstd::slice::slice_subrange;

verus! {

/// A clip that is run tile by tile.
pub struct TiledRun {
    layout: AutoGazeTileLayout,
    batch: usize,
    time: usize,
    tile_batch_size: usize,
    done: usize,
    frame_points: Vec<Vec<Vec<FixationPoint>>>,
    stop_probabilities: Vec<Vec<Binary32>>,
    seen: Ghost<Seq<FrameFixationTrace>>,
}

impl TiledRun {
    /// The tiles of the clip.
    pub closed spec fn tiling(self) -> AutoGazeTileLayout {
        self.layout
    }

    /// The rows of the clip.
    pub closed spec fn rows(self) -> nat {
        self.batch as nat
    }

    /// The frames of the clip.
    pub closed spec fn frames(self) -> nat {
        self.time as nat
    }

    /// The number of tiles that have been run.
    pub closed spec fn tiles_done(self) -> nat {
        self.done as nat
    }

    /// The tiles run at once.
    pub closed spec fn run_size(self) -> nat {
        self.tile_batch_size as nat
    }

    /// The traces of the tiles that have been run, tile by tile and row by row.
    pub closed spec fn traces(self) -> Seq<FrameFixationTrace> {
        self.seen@
    }

    /// The fixations of frame `f` of row `b` so far.
    pub open spec fn points(self, b: int, f: int) -> Seq<FixationPoint> {
        stitched_points(
            self.traces(),
            self.tiling().tiles@,
            self.tiles_done(),
            self.rows(),
            b,
            f,
            self.tiling(),
        )
    }

    /// The stop probability of frame `f` of row `b` so far.
    pub open spec fn stop(self, b: int, f: int) -> Binary32 {
        stitched_stop(
            single(ZERO_BITS),
            self.traces(),
            self.tiles_done(),
            self.rows(),
            b,
            f,
        )
    }

    /// What is held is what the tiles so far give.
    pub closed spec fn wf(self) -> bool {
        &&& self.tile_batch_size > 0
        &&& self.done <= self.layout.tiles@.len()
        &&& self.seen@.len() == self.done * self.batch
        &&& self.frame_points@.len() == self.batch
        &&& self.stop_probabilities@.len() == self.batch
        &&& forall|b: int| 0 <= b < self.batch ==> self.row_wf(#[trigger] self.frame_points@[b], b)
        &&& forall|b: int|
            0 <= b < self.batch ==> self.stops_wf(#[trigger] self.stop_probabilities@[b], b)
    }

    closed spec fn row_wf(self, row: Vec<Vec<FixationPoint>>, b: int) -> bool {
        point_lists(row@) == Seq::new(self.time as nat, |f: int| self.points(b, f))
    }

    closed spec fn stops_wf(self, stops: Vec<Binary32>, b: int) -> bool {
        stops@ == Seq::new(self.time as nat, |f: int| self.stop(b, f))
    }

    /// Starts a clip with no tile run. At least one tile is run at once.
    pub fn begin(layout: AutoGazeTileLayout, batch: usize, time: usize, tile_batch_size: usize) -> (r:
        TiledRun)
        ensures
            r.wf(),
            r.tiling() == layout,
            r.rows() == batch,
            r.frames() == time,
            r.run_size() == at_least_one(tile_batch_size as nat),
            r.tiles_done() == 0,
            r.traces() == Seq::<FrameFixationTrace>::empty(),
    {
        let frame_points: Vec<Vec<Vec<FixationPoint>>> = empty_batch_frame_points(batch, time);
        let stop_probabilities: Vec<Vec<Binary32>> = zero_stops(batch, time);
        let run: TiledRun = TiledRun {
            layout,
            batch,
            time,
            tile_batch_size: if tile_batch_size == 0 {
                1
            } else {
                tile_batch_size
            },
            done: 0,
            frame_points,
            stop_probabilities,
            seen: Ghost(Seq::empty()),
        };
        proof {
            assert(0 * batch == 0) by (nonlinear_arith);
            assert forall|b: int| 0 <= b < run.batch implies run.row_wf(
                #[trigger] run.frame_points@[b],
                b,
            ) by {
                assert(point_lists(run.frame_points@[b]@) =~= Seq::new(
                    run.time as nat,
                    |f: int| run.points(b, f),
                ));
            }
            assert forall|b: int| 0 <= b < run.batch implies run.stops_wf(
                #[trigger] run.stop_probabilities@[b],
                b,
            ) by {
                assert(run.stop_probabilities@[b]@ =~= Seq::new(
                    run.time as nat,
                    |f: int| run.stop(b, f),
                ));
            }
        }
        run
    }

    /// The next tiles to run: the first of them and how many; `None` once all have been run.
    pub fn next_run(&self) -> (r: Option<(usize, usize)>)
        requires
            self.wf(),
        ensures
            match r {
                Some((start, count)) => {
                    &&& start == self.tiles_done()
                    &&& count == min_int(
                        self.run_size() as int,
                        self.tiling().tiles@.len() - self.tiles_done(),
                    )
                    &&& count > 0
                },
                None => self.tiles_done() == self.tiling().tiles@.len(),
            },
    {
        let total: usize = self.layout.tiles.len();
        if self.done < total {
            Some((self.done, min_usize(self.tile_batch_size, total - self.done)))
        } else {
            None
        }
    }

    /// Takes the traces of the next `count` tiles: those of all rows of a tile stand together.
    pub fn put(&mut self, tile_traces: &[FrameFixationTrace], count: usize)
        requires
            old(self).wf(),
            old(self).tiles_done() + count <= old(self).tiling().tiles@.len(),
            tile_traces@.len() == count * old(self).rows(),
        ensures
            final(self).wf(),
            final(self).tiling() == old(self).tiling(),
            final(self).rows() == old(self).rows(),
            final(self).frames() == old(self).frames(),
            final(self).run_size() == old(self).run_size(),
            final(self).tiles_done() == old(self).tiles_done() + count,
            final(self).traces() == old(self).traces() + tile_traces@,
    {
        let total: usize = self.layout.tiles.len();
        let start: usize = self.done;
        let tiles: &[AutoGazeTile] = slice_subrange(
            self.layout.tiles.as_slice(),
            start,
            start + count,
        );
        let ghost points_before = self.frame_points@;
        let ghost stops_before = self.stop_probabilities@;
        proof {
            assert forall|b: int| 0 <= b < self.batch implies (
            #[trigger] self.frame_points@[b])@.len() >= self.time by {
                assert(self.row_wf(self.frame_points@[b], b));
                assert(point_lists(self.frame_points@[b]@).len() == self.time);
            }
            assert forall|b: int| 0 <= b < self.batch implies (
            #[trigger] self.stop_probabilities@[b])@.len() >= self.time by {
                assert(self.stops_wf(self.stop_probabilities@[b], b));
            }
        }
        let ghost before = *self;
        collect_tile_trace_points(
            tile_traces,
            tiles,
            self.batch,
            self.time,
            &self.layout,
            &mut self.frame_points,
            &mut self.stop_probabilities,
        );
        self.done = start + count;
        proof {
            let joined = before.seen@ + tile_traces@;
            self.seen = Ghost(joined);
            assert((start + count) * self.batch == start * self.batch + count * self.batch)
                by (nonlinear_arith);
            assert forall|b: int| 0 <= b < self.batch implies self.row_wf(
                #[trigger] self.frame_points@[b],
                b,
            ) by {
                assert(before.row_wf(points_before[b], b));
                let was = point_lists(points_before[b]@);
                let now = point_lists(self.frame_points@[b]@);
                assert(row_stitched(
                    was,
                    now,
                    tile_traces@,
                    tiles@,
                    self.batch as nat,
                    self.time as int,
                    b,
                    self.layout,
                ));
                assert forall|f: int| 0 <= f < now.len() implies #[trigger] now[f] == self.points(
                    b,
                    f,
                ) by {
                    before.lemma_extend(*self, tile_traces@, tiles@, count as nat, b, f);
                    assert(was[f] == before.points(b, f));
                }
                assert(now =~= Seq::new(self.time as nat, |f: int| self.points(b, f)));
            }
            assert forall|b: int| 0 <= b < self.batch implies self.stops_wf(
                #[trigger] self.stop_probabilities@[b],
                b,
            ) by {
                assert(before.stops_wf(stops_before[b], b));
                let was = stops_before[b]@;
                let now = self.stop_probabilities@[b]@;
                assert(stops_stitched(
                    was,
                    now,
                    tile_traces@,
                    tiles@.len(),
                    self.batch as nat,
                    self.time as int,
                    b,
                ));
                assert forall|f: int| 0 <= f < now.len() implies #[trigger] now[f] == self.stop(
                    b,
                    f,
                ) by {
                    before.lemma_extend(*self, tile_traces@, tiles@, count as nat, b, f);
                    assert(was[f] == before.stop(b, f));
                }
                assert(now =~= Seq::new(self.time as nat, |f: int| self.stop(b, f)));
            }
        }
    }

    proof fn lemma_extend(
        self,
        after: TiledRun,
        traces: Seq<FrameFixationTrace>,
        tiles: Seq<AutoGazeTile>,
        count: nat,
        b: int,
        f: int,
    )
        requires
            self.wf(),
            after.layout == self.layout,
            after.batch == self.batch,
            after.done == self.done + count,
            after.seen@ == self.seen@ + traces,
            after.done <= self.layout.tiles@.len(),
            tiles == self.layout.tiles@.subrange(self.done as int, self.done + count),
            traces.len() == count * self.batch,
            0 <= b < self.batch,
        ensures
            after.points(b, f) == self.points(b, f) + stitched_points(
                traces,
                tiles,
                tiles.len(),
                self.batch as nat,
                b,
                f,
                self.layout,
            ),
            after.stop(b, f) == stitched_stop(
                self.stop(b, f),
                traces,
                tiles.len(),
                self.batch as nat,
                b,
                f,
            ),
    {
        let n = self.done as nat;
        let batch = self.batch as nat;
        let all = self.layout.tiles@.take(after.done as int);
        let joined = after.seen@;
        lemma_runs_join(
            joined,
            all,
            n,
            count,
            batch,
            b,
            f,
            self.layout,
            single(ZERO_BITS),
        );
        assert(joined.take((n * batch) as int) =~= self.seen@);
        assert(joined.skip((n * batch) as int) =~= traces);
        assert(all.skip(n as int) =~= tiles);
        assert(all.take(n as int) =~= self.layout.tiles@.take(n as int));
        lemma_tiles_prefix(
            joined,
            self.layout.tiles@,
            all,
            n + count,
            batch,
            b,
            f,
            self.layout,
        );
        lemma_tiles_prefix(
            self.seen@,
            self.layout.tiles@,
            all.take(n as int),
            n,
            batch,
            b,
            f,
            self.layout,
        );
    }

    /// The traces of the clip: the fixations of every tile, the most confident ones first, as many
    /// as the tiles have tokens or as are shown, whichever is more.
    pub fn finish_traces(self, max_gaze_tokens_each_frame: usize, k: usize) -> (r: Vec<
        FrameFixationTrace,
    >)
        requires
            self.wf(),
            self.tiles_done() == self.tiling().tiles@.len(),
        ensures
            r@.len() == self.rows(),
            forall|b: int|
                0 <= b < r@.len() ==> self.is_traced(
                    #[trigger] r@[b],
                    b,
                    capped(
                        max_int(
                            max_gaze_tokens_each_frame as int,
                            at_least_one(k as nat) as int,
                        ) as nat * at_least_one(self.tiling().tiles@.len()),
                    ) as nat,
                ),
    {
        let budget: usize = tiled_frame_budget(
            max_gaze_tokens_each_frame,
            k,
            self.layout.tiles.len(),
        );
        let traces: Vec<FrameFixationTrace> = build_tiled_traces(
            &self.frame_points,
            &self.stop_probabilities,
            budget,
        );
        proof {
            assert forall|b: int| 0 <= b < traces@.len() implies self.is_traced(
                #[trigger] traces@[b],
                b,
                budget as nat,
            ) by {
                assert(self.row_wf(self.frame_points@[b], b));
                assert(self.stops_wf(self.stop_probabilities@[b], b));
                let lists = point_lists(self.frame_points@[b]@);
                assert(lists.len() == self.time);
                assert(is_tiled_trace(
                    traces@[b],
                    self.frame_points@[b]@,
                    self.stop_probabilities@[b]@,
                    budget as nat,
                ));
                assert forall|f: int|
                    0 <= f < traces@[b].frames@.len() implies is_tiled_frame(
                    #[trigger] traces@[b].frames@[f],
                    self.points(b, f),
                    self.stop(b, f),
                    budget as nat,
                ) by {
                    assert(lists[f] == self.frame_points@[b]@[f]@);
                    assert(lists[f] == self.points(b, f));
                    assert(self.stop_probabilities@[b]@[f] == self.stop(b, f));
                }
            }
        }
        traces
    }

    /// `trace` holds the fixations of every frame of row `b`, `budget` a frame.
    pub open spec fn is_traced(self, trace: FrameFixationTrace, b: int, budget: nat) -> bool {
        &&& trace.frames@.len() == self.frames()
        &&& forall|f: int|
            0 <= f < trace.frames@.len() ==> is_tiled_frame(
                #[trigger] trace.frames@[f],
                self.points(b, f),
                self.stop(b, f),
                budget,
            )
    }

    /// The fixations of every frame of every row, the most confident ones first.
    pub fn finish_points(self) -> (r: Vec<Vec<Vec<FixationPoint>>>)
        requires
            self.wf(),
            self.tiles_done() == self.tiling().tiles@.len(),
        ensures
            r@.len() == self.rows(),
            forall|b: int|
                0 <= b < r@.len() ==> point_lists((#[trigger] r@[b])@) == Seq::new(
                    self.frames(),
                    |f: int| by_rank(self.points(b, f)),
                ),
    {
        let mut points: Vec<Vec<Vec<FixationPoint>>> = self.frame_points;
        let ghost given = points@;
        sort_batch_frame_points_by_confidence(&mut points);
        proof {
            assert forall|b: int| 0 <= b < points@.len() implies point_lists(
                (#[trigger] points@[b])@,
            ) == Seq::new(self.frames(), |f: int| by_rank(self.points(b, f))) by {
                assert(self.row_wf(given[b], b));
                let lists = point_lists(given[b]@);
                assert(lists.len() == self.time);
                assert forall|f: int| 0 <= f < self.time implies (#[trigger] given[b]@[f])@
                    == self.points(b, f) by {
                    assert(lists[f] == given[b]@[f]@);
                }
                assert(point_lists(points@[b]@) =~= Seq::new(
                    self.frames(),
                    |f: int| by_rank(self.points(b, f)),
                ));
            }
        }
        points
    }
}

proof fn lemma_tiles_prefix(
    traces: Seq<FrameFixationTrace>,
    tiles: Seq<AutoGazeTile>,
    prefix: Seq<AutoGazeTile>,
    n: nat,
    batch: nat,
    b: int,
    f: int,
    layout: AutoGazeTileLayout,
)
    requires
        n <= prefix.len() <= tiles.len(),
        forall|i: int| 0 <= i < prefix.len() ==> prefix[i] == tiles[i],
    ensures
        stitched_points(traces, prefix, n, batch, b, f, layout) == stitched_points(
            traces,
            tiles,
            n,
            batch,
            b,
            f,
            layout,
        ),
    decreases n,
{
    if n > 0 {
        lemma_tiles_prefix(traces, tiles, prefix, (n - 1) as nat, batch, b, f, layout);
    }
}

/// `batch` rows of `time` zeros.
fn zero_stops(batch: usize, time: usize) -> (r: Vec<Vec<Binary32>>)
    ensures
        r@.len() == batch,
        forall|b: int|
            0 <= b < batch ==> (#[trigger] r@[b])@ == Seq::new(
                time as nat,
                |f: int| single(ZERO_BITS),
            ),
{
    let mut rows: Vec<Vec<Binary32>> = Vec::new();
    let mut b: usize = 0;
    while b < batch
        invariant
            b <= batch,
            rows@.len() == b,
            forall|c: int|
                0 <= c < b ==> (#[trigger] rows@[c])@ == Seq::new(
                    time as nat,
                    |f: int| single(ZERO_BITS),
                ),
        decreases batch - b,
    {
        let mut stops: Vec<Binary32> = Vec::new();
        let mut f: usize = 0;
        while f < time
            invariant
                f <= time,
                stops@ == Seq::new(f as nat, |g: int| single(ZERO_BITS)),
            decreases time - f,
        {
            stops.push(single(ZERO_BITS));
            f = f + 1;
            assert(stops@ =~= Seq::new(f as nat, |g: int| single(ZERO_BITS)));
        }
        assert(stops@ =~= Seq::new(time as nat, |f: int| single(ZERO_BITS)));
        rows.push(stops);
        b = b + 1;
    }
    rows
}

/// The fixation has confidence.
pub open spec fn confident(point: FixationPoint) -> bool {
    single(ZERO_BITS).lt(point.confidence)
}

/// Reading points and reading traces agree: what has confidence in a frame of a trace is what the
/// readout of the frame holds, in the same order, up to the budget of the trace.
pub proof fn lemma_readout_matches_trace(
    run: TiledRun,
    trace: FrameFixationTrace,
    b: int,
    f: int,
    budget: nat,
)
    requires
        run.is_traced(trace, b, budget),
        0 <= f < run.frames(),
    ensures
        ({
            let readout = by_rank(run.points(b, f));
            let kept = min_int(readout.len() as int, at_least_one(budget) as int);
            trace.frames@[f].points@.filter(|point: FixationPoint| confident(point))
                == readout.take(kept)
        }),
{
    let points = run.points(b, f);
    let readout = by_rank(points);
    let len = at_least_one(budget);
    let kept = min_int(readout.len() as int, len as int);
    let shown = readout.take(kept);
    let filler = Seq::new((len - kept) as nat, |i: int| FixationPoint::placeholder());
    let keep = |point: FixationPoint| confident(point);
    assert(is_tiled_frame(trace.frames@[f], points, run.stop(b, f), budget));
    assert(trace.frames@[f].points@ =~= shown + filler);
    Seq::filter_distributes_over_add(shown, filler, keep);
    lemma_by_rank(points);
    assert forall|i: int| 0 <= i < shown.len() implies keep(#[trigger] shown[i]) by {
        assert(readout.contains(shown[i])) by {
            assert(readout[i] == shown[i]);
        }
        lemma_ordered_keeps(readout, points, shown[i]);
        let at = choose|at: int| 0 <= at < points.len() && points[at] == shown[i];
        lemma_stitched_confident(
            run.traces(),
            run.tiling().tiles@,
            run.tiles_done(),
            run.rows(),
            b,
            f,
            run.tiling(),
            at,
        );
    }
    lemma_filter_all(shown, keep);
    lemma_filter_none(filler, keep);
    assert(shown + Seq::<FixationPoint>::empty() =~= shown);
}

proof fn lemma_filter_all(points: Seq<FixationPoint>, keep: spec_fn(FixationPoint) -> bool)
    requires
        forall|i: int| 0 <= i < points.len() ==> keep(#[trigger] points[i]),
    ensures
        points.filter(keep) == points,
    decreases points.len(),
{
    reveal(Seq::filter);
    if points.len() > 0 {
        lemma_filter_all(points.drop_last(), keep);
        assert(points.drop_last().push(points.last()) =~= points);
    }
}

proof fn lemma_filter_none(points: Seq<FixationPoint>, keep: spec_fn(FixationPoint) -> bool)
    requires
        forall|i: int| 0 <= i < points.len() ==> !keep(#[trigger] points[i]),
    ensures
        points.filter(keep) == Seq::<FixationPoint>::empty(),
    decreases points.len(),
{
    reveal(Seq::filter);
    if points.len() > 0 {
        lemma_filter_none(points.drop_last(), keep);
    }
}

/// Whatever tiles contribute has confidence.
proof fn lemma_stitched_confident(
    traces: Seq<FrameFixationTrace>,
    tiles: Seq<AutoGazeTile>,
    n: nat,
    batch: nat,
    b: int,
    f: int,
    layout: AutoGazeTileLayout,
    i: int,
)
    requires
        0 <= i < stitched_points(traces, tiles, n, batch, b, f, layout).len(),
    ensures
        confident(stitched_points(traces, tiles, n, batch, b, f, layout)[i]),
    decreases n,
{
    let before = stitched_points(traces, tiles, (n - 1) as nat, batch, b, f, layout);
    if i < before.len() {
        lemma_stitched_confident(traces, tiles, (n - 1) as nat, batch, b, f, layout, i);
    } else {
        let points = traces[(n - 1) * batch + b].frames@[f].points@;
        lemma_kept_confident(points, points.len(), tiles[n - 1], layout, i - before.len());
    }
}

proof fn lemma_kept_confident(
    points: Seq<FixationPoint>,
    k: nat,
    tile: AutoGazeTile,
    layout: AutoGazeTileLayout,
    i: int,
)
    requires
        0 <= i < kept_points(points, k, tile, layout).len(),
    ensures
        confident(kept_points(points, k, tile, layout)[i]),
    decreases k,
{
    let before = kept_points(points, (k - 1) as nat, tile, layout);
    if i < before.len() {
        lemma_kept_confident(points, (k - 1) as nat, tile, layout, i);
    }
}

} // verus!
