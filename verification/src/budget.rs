//! What a frame can hold: no token twice, and no more fixations than its tiles have tokens.
use crate::arith::{capped, max_int};
use crate::decode::{lemma_block_lengths, selection_width, RowModel};
use crate::generation::{lemma_block_tokens, lemma_longest_selection, GenerationRun};
use crate::ieee::Binary32;
use crate::order::{by_rank, lemma_by_rank};
use crate::selection::{
    lemma_row_selection, longest_selection, mentions, packed_row, packed_stride, padded,
    row_selection, GreedyTokenSelection,
};
use crate::stitch::{has_frame, kept_points, stitched_points};
use crate::tiled::{confident, lemma_readout_matches_trace, TiledRun};
use crate::tiles::{AutoGazeTile, AutoGazeTileLayout};
use crate::trace::{at_least_one, FixationPoint, FrameFixationTrace};
use vstd::prelude::*;

verus! {

/// The tokens that are no padding are cells of the frame, and none comes twice.
pub open spec fn unrepeated(row: RowModel, vocab: nat) -> bool {
    &&& row.tokens.len() == row.padded.len()
    &&& forall|i: int|
        0 <= i < row.tokens.len() && !row.padded[i] ==> 0 <= #[trigger] row.tokens[i] < vocab
    &&& forall|i: int, j: int|
        0 <= i < j < row.tokens.len() && !row.padded[i] && !row.padded[j]
            ==> #[trigger] row.tokens[i] != #[trigger] row.tokens[j]
}

/// A frame never takes a token twice: an opened frame has taken none, and a selected block holds
/// only tokens that the frame has not taken yet.
pub proof fn lemma_frame_never_repeats(
    run: GenerationRun,
    next: GenerationRun,
    values: Seq<Binary32>,
    weights: Seq<Binary32>,
    selection: GreedyTokenSelection,
    b: int,
)
    requires
        run.wf(),
        run.frame is Some,
        0 <= b < run.settings.batch,
    ensures
        run.frame->0.row(b).fresh() ==> unrepeated(
            run.frame->0.row(b),
            run.settings.vocab as nat,
        ),
        unrepeated(run.frame->0.row(b), run.settings.vocab as nat) && run.selects(
            selection,
            values,
            weights,
        ) && next.block_entered(run, selection) ==> unrepeated(
            next.frame->0.row(b),
            run.settings.vocab as nat,
        ),
{
    let row = run.frame->0.row(b);
    let vocab = run.settings.vocab as nat;
    if unrepeated(row, vocab) && run.selects(selection, values, weights) && next.block_entered(
        run,
        selection,
    ) && selection_width(selection) > 0 {
        let batch = run.settings.batch as nat;
        let steps = run.settings.num_multi_token_pred as nat;
        let eos = run.settings.eos_token_id;
        let rows = |c: int|
            row_selection(packed_row(values, weights, steps, vocab, c), run.rules(c), steps);
        let len = longest_selection(rows, batch);
        if packed_stride(steps, vocab) > usize::MAX || batch * packed_stride(steps, vocab)
            > values.len() {
            assert(selection.empty_rows(batch));
            assert(selection.tokens@[0]@.len() == 0);
        } else {
            assert(selection.holds(rows, batch, eos));
            lemma_longest_selection(rows, batch, 0);
            lemma_longest_selection(rows, batch, b);
            let mine = rows(b);
            lemma_row_selection(
                packed_row(values, weights, steps, vocab, b),
                run.rules(b),
                steps,
            );
            let tokens = selection.tokens@[b]@;
            let valid = selection.valid@[b]@;
            let confidences = selection.confidences@[b]@;
            assert(selection.tokens@[0]@ == padded(rows(0).tokens, len, eos));
            assert(tokens == padded(mine.tokens, len, eos));
            assert(valid == padded(mine.valid, len, false));
            let after = next.frame->0.row(b);
            assert(after == row.taken_block(tokens, valid, confidences, len));
            lemma_block_tokens(row, tokens, valid, confidences, len);
            lemma_block_lengths(row, tokens, valid, confidences, eos, len);
            lemma_block_padding(row, tokens, valid, confidences, len);
            let n = row.tokens.len() as int;
            assert forall|i: int| n <= i < after.tokens.len() && !after.padded[i] implies {
                &&& i - n < mine.tokens.len()
                &&& #[trigger] after.tokens[i] == mine.picked[i - n]
                &&& !mentions(row.tokens, mine.picked[i - n] as nat)
            } by {
                assert(after.padded[i] == !valid[i - n]);
                assert(after.tokens[i] == tokens[i - n]);
            }
            assert forall|i: int, j: int|
                0 <= i < j < after.tokens.len() && !after.padded[i] && !after.padded[j] implies
                #[trigger] after.tokens[i] != #[trigger] after.tokens[j] by {
                if i < n {
                    assert(after.tokens[i] == row.tokens[i]);
                    assert(after.padded[i] == row.padded[i]);
                    if j < n {
                        assert(after.tokens[j] == row.tokens[j]);
                        assert(after.padded[j] == row.padded[j]);
                    } else if row.tokens[i] == after.tokens[j] {
                        assert(mentions(row.tokens, mine.picked[j - n] as nat));
                    }
                }
            }
            assert forall|i: int| 0 <= i < after.tokens.len() && !after.padded[i] implies 0
                <= #[trigger] after.tokens[i] < vocab by {
                if i < n {
                    assert(after.tokens[i] == row.tokens[i]);
                    assert(after.padded[i] == row.padded[i]);
                }
            }
        }
    }
}

/// A row that takes a block is padded where the block is.
proof fn lemma_block_padding(
    row: RowModel,
    tokens: Seq<i64>,
    valid: Seq<bool>,
    confidences: Seq<Binary32>,
    n: nat,
)
    ensures
        row.taken_block(tokens, valid, confidences, n).padded == row.padded + Seq::new(
            n,
            |i: int| !valid[i],
        ),
    decreases n,
{
    if n > 0 {
        lemma_block_padding(row, tokens, valid, confidences, (n - 1) as nat);
    }
    assert(row.taken_block(tokens, valid, confidences, n).padded =~= row.padded + Seq::new(
        n,
        |i: int| !valid[i],
    ));
}

/// Every frame of the traces holds at most `most` fixations.
pub open spec fn frames_within(traces: Seq<FrameFixationTrace>, most: nat) -> bool {
    forall|index: int, f: int|
        has_frame(traces, index, f) ==> (#[trigger] traces[index].frames@[f]).points@.len() <= most
}

/// What tiles contribute to a frame is at most what one tile holds, times the number of tiles.
proof fn lemma_stitched_within(
    traces: Seq<FrameFixationTrace>,
    tiles: Seq<AutoGazeTile>,
    n: nat,
    batch: nat,
    b: int,
    f: int,
    layout: AutoGazeTileLayout,
    most: nat,
)
    requires
        frames_within(traces, most),
    ensures
        stitched_points(traces, tiles, n, batch, b, f, layout).len() <= most * n,
    decreases n,
{
    if n > 0 {
        lemma_stitched_within(traces, tiles, (n - 1) as nat, batch, b, f, layout, most);
        let index = (n - 1) * batch + b;
        if has_frame(traces, index, f) {
            let points = traces[index].frames@[f].points@;
            lemma_kept_within(points, points.len(), tiles[n - 1], layout);
        }
        assert(most * n == most * (n - 1) + most) by (nonlinear_arith);
    } else {
        assert(most * 0 == 0) by (nonlinear_arith);
    }
}

proof fn lemma_kept_within(
    points: Seq<FixationPoint>,
    k: nat,
    tile: AutoGazeTile,
    layout: AutoGazeTileLayout,
)
    ensures
        kept_points(points, k, tile, layout).len() <= k,
    decreases k,
{
    if k > 0 {
        lemma_kept_within(points, (k - 1) as nat, tile, layout);
    }
}

/// A frame that is stitched from tiles holds at most the tokens of a tile times the number of
/// tiles, and its trace cuts nothing off: whatever a tile generated with confidence is there.
pub proof fn lemma_tiles_never_cut(
    run: TiledRun,
    trace: FrameFixationTrace,
    b: int,
    f: int,
    max_gaze_tokens_each_frame: usize,
    k: usize,
)
    requires
        run.tiles_done() == run.tiling().tiles@.len(),
        run.is_traced(
            trace,
            b,
            capped(
                max_int(
                    max_gaze_tokens_each_frame as int,
                    at_least_one(k as nat) as int,
                ) as nat * at_least_one(run.tiling().tiles@.len()),
            ) as nat,
        ),
        frames_within(
            run.traces(),
            max_int(max_gaze_tokens_each_frame as int, at_least_one(k as nat) as int) as nat,
        ),
        max_int(max_gaze_tokens_each_frame as int, at_least_one(k as nat) as int)
            * run.tiling().tiles@.len() <= usize::MAX,
        0 <= f < run.frames(),
    ensures
        run.points(b, f).len() <= max_int(
            max_gaze_tokens_each_frame as int,
            at_least_one(k as nat) as int,
        ) * run.tiling().tiles@.len(),
        trace.frames@[f].points@.filter(|point: FixationPoint| confident(point)) == by_rank(
            run.points(b, f),
        ),
{
    let most = max_int(max_gaze_tokens_each_frame as int, at_least_one(k as nat) as int) as nat;
    let tiles = run.tiling().tiles@.len();
    let budget = capped(most * at_least_one(tiles)) as nat;
    let points = run.points(b, f);
    lemma_stitched_within(
        run.traces(),
        run.tiling().tiles@,
        tiles,
        run.rows(),
        b,
        f,
        run.tiling(),
        most,
    );
    lemma_readout_matches_trace(run, trace, b, f, budget);
    lemma_by_rank(points);
    if tiles == 0 {
        assert(most * tiles == 0) by (nonlinear_arith)
            requires
                tiles == 0,
        ;
    }
    let readout = by_rank(points);
    assert(readout.len() <= at_least_one(budget));
    assert(readout.take(readout.len() as int) =~= readout);
}

} // verus!
