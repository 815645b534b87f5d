//! What a run generates does not depend on what it caches.
//!
//! Uncached, cached and streamed runs whose tokens are selected on the host keep the same sequence,
//! take the same tokens and write the same output, as long as their decoders give the same scores
//! and no frame leaves the window. A decoder that reads a slot only once can give the scores of one
//! that reads the whole sequence in every step because the position of a slot stays what it was
//! when it was read.
use crate::decode::{selection_width, FrameDecode};
use crate::generated::AutoGazeGenerateOutput;
use crate::generation::{nothing_skipped, waiting, GenerationRun, GenerationSettings};
use crate::ieee::Binary32;
use crate::positions::{is_pending, slot_range};
use crate::selection::{
    longest_selection, packed_row, packed_stride, row_selection, GreedyTokenSelection, RowSelection,
};
use crate::streaming::AutoGazeStreamingCacheState;
use vstd::prelude::*;

verus! {

/// The two sequences hold the same slots.
pub open spec fn same_sequence(
    one: AutoGazeStreamingCacheState,
    other: AutoGazeStreamingCacheState,
) -> bool {
    &&& one.batch == other.batch
    &&& one.vision_tokens == other.vision_tokens
    &&& one.pending_query is Some == other.pending_query is Some
    &&& forall|b: int| 0 <= b < one.batch ==> #[trigger] one.row(b) == other.row(b)
}

/// The two frames have taken the same tokens, at the same place of the sequence.
pub open spec fn same_frame(one: FrameDecode, other: FrameDecode) -> bool {
    &&& one.batch() == other.batch()
    &&& one.is_first_token == other.is_first_token
    &&& one.generation_prefix_len == other.generation_prefix_len
    &&& one.max_tokens == other.max_tokens
    &&& forall|b: int| 0 <= b < one.batch() ==> #[trigger] one.row(b) == other.row(b)
    &&& forall|b: int|
        0 <= b < one.batch() ==> (#[trigger] one.generation_tail_positions@[b])@
            == other.generation_tail_positions@[b]@
    &&& forall|b: int|
        0 <= b < one.batch() ==> (#[trigger] one.last_generated_indices@[b])@
            == other.last_generated_indices@[b]@
}

/// The two outputs hold the same tokens, padding and confidences.
pub open spec fn same_output(
    one: AutoGazeGenerateOutput,
    other: AutoGazeGenerateOutput,
    batch: nat,
) -> bool {
    &&& one.num_gazing_each_frame@ == other.num_gazing_each_frame@
    &&& forall|b: int|
        0 <= b < batch ==> (#[trigger] one.gazing_pos@[b])@ == other.gazing_pos@[b]@
    &&& forall|b: int|
        0 <= b < batch ==> (#[trigger] one.if_padded_gazing@[b])@ == other.if_padded_gazing@[b]@
    &&& forall|b: int|
        0 <= b < batch ==> (#[trigger] one.confidences@[b])@ == other.confidences@[b]@
}

/// The two runs are over clips of one shape, however many frames these have, and select on the
/// host.
pub open spec fn comparable(one: GenerationRun, other: GenerationRun) -> bool {
    &&& one.wf()
    &&& other.wf()
    &&& !one.mode.on_device()
    &&& !other.mode.on_device()
    &&& one.settings == (GenerationSettings { frames: one.settings.frames, ..other.settings })
}

/// The two runs have generated the same.
pub open spec fn same_progress(one: GenerationRun, other: GenerationRun) -> bool {
    &&& one.done == other.done
    &&& same_output(one.output, other.output, one.settings.batch as nat)
}

/// The two runs stand at the same place of an open frame.
pub open spec fn alike(one: GenerationRun, other: GenerationRun) -> bool {
    &&& comparable(one, other)
    &&& one.frame is Some
    &&& other.frame is Some
    &&& same_frame(one.frame->0, other.frame->0)
    &&& same_sequence(one.sequence(), other.sequence())
}

/// Two runs that go on with the same sequence open the next frame alike, where no slot leaves the
/// window.
pub proof fn lemma_runs_start_alike(
    one: GenerationRun,
    other: GenerationRun,
    from_one: AutoGazeStreamingCacheState,
    from_other: AutoGazeStreamingCacheState,
    next_one: GenerationRun,
    next_other: GenerationRun,
)
    requires
        comparable(one, other),
        one.resumes(from_one),
        other.resumes(from_other),
        from_one.fresh() && from_other.fresh() || same_sequence(from_one, from_other),
        next_one.wf(),
        next_other.wf(),
        next_one.same_clip(one),
        next_other.same_clip(other),
        next_one.frame is Some,
        next_other.frame is Some,
        next_one.frame_started(from_one, 0),
        next_other.frame_started(from_other, 0),
    ensures
        alike(next_one, next_other),
{
    let (a, c) = (next_one.sequence(), next_other.sequence());
    let (f, g) = (next_one.frame->0, next_other.frame->0);
    assert forall|b: int| 0 <= b < a.batch implies #[trigger] a.row(b) == c.row(b) by {
        let (before_a, before_c) = (from_one.row(b), from_other.row(b));
        assert(before_a == before_c);
        let settled = before_a.committed().settled();
        assert(settled.dropped(0) == settled) by {
            assert(settled.dropped(0).mask =~= settled.mask);
            assert(settled.dropped(0).positions =~= settled.positions);
            assert(settled.dropped(0).pending =~= settled.pending);
        }
        assert(a.row(b) == moved(next_one, from_one).row(b));
        assert(c.row(b) == moved(next_other, from_other).row(b));
    }
    assert(a.active() == c.active()) by {
        if a.batch > 0 {
            assert(a.row(0) == c.row(0));
            assert(a.row(0).mask.len() == a.active());
            assert(c.row(0).mask.len() == c.active());
        }
    }
    assert forall|b: int| 0 <= b < f.batch() implies #[trigger] f.row(b) == g.row(b) by {
        assert(f.row(b).fresh());
        assert(g.row(b).fresh());
        assert(a.row(b) == c.row(b));
        assert(f.row(b).tokens =~= g.row(b).tokens);
        assert(f.row(b).padded =~= g.row(b).padded);
        assert(f.row(b).confidences =~= g.row(b).confidences);
        match (f.coverage_trackers, g.coverage_trackers) {
            (Some(ours), Some(theirs)) => {
                assert(ours@[b].fresh(
                    one.settings.scale_layouts@,
                    one.settings.coverage_stop_ratio->0,
                ));
                assert(theirs@[b].fresh(
                    one.settings.scale_layouts@,
                    one.settings.coverage_stop_ratio->0,
                ));
                assert(ours@[b].covered@ =~= theirs@[b].covered@);
            },
            _ => {},
        }
    }
    assert forall|b: int| 0 <= b < f.batch() implies (#[trigger] f.generation_tail_positions@[b])@
        == g.generation_tail_positions@[b]@ by {
        assert(a.row(b) == c.row(b));
    }
    assert forall|b: int| 0 <= b < f.batch() implies (#[trigger] f.last_generated_indices@[b])@
        == g.last_generated_indices@[b]@ by {
        assert(f.last_generated_indices@[b]@.len() == 0);
        assert(g.last_generated_indices@[b]@.len() == 0);
    }
}

/// The sequence of an opened frame before its vision tokens wait to be read.
spec fn moved(
    run: GenerationRun,
    from: AutoGazeStreamingCacheState,
) -> AutoGazeStreamingCacheState {
    AutoGazeStreamingCacheState { pending_query: from.pending_query, ..run.sequence() }
}

/// Runs that stand alike go on alike: they ask for the same step, select the same block from the
/// same scores, and stand alike after it.
pub proof fn lemma_runs_step_alike(
    one: GenerationRun,
    other: GenerationRun,
    values: Seq<Binary32>,
    weights: Seq<Binary32>,
    block_one: GreedyTokenSelection,
    block_other: GreedyTokenSelection,
    next_one: GenerationRun,
    next_other: GenerationRun,
)
    requires
        alike(one, other),
    ensures
        one.next() == other.next(),
        one.next() is Decode && one.selects(block_one, values, weights) && other.selects(
            block_other,
            values,
            weights,
        ) && next_one.wf() && next_other.wf() && next_one.same_clip(one) && next_other.same_clip(
            other,
        ) && next_one.block_entered(one, block_one) && next_other.block_entered(other, block_other)
            ==> alike(next_one, next_other),
{
    let (f, g) = (one.frame->0, other.frame->0);
    assert(f.count() == g.count()) by {
        if f.batch() > 0 {
            assert(f.row(0) == g.row(0));
            assert(f.row(0).tokens.len() == f.count());
            assert(g.row(0).tokens.len() == g.count());
        }
    }
    assert(f.all_finished() == g.all_finished()) by {
        assert forall|b: int| 0 <= b < f.batch() implies f.finished@[b] == g.finished@[b] by {
            assert(f.row(b) == g.row(b));
        }
    }
    if one.next() is Decode && one.selects(block_one, values, weights) && other.selects(
        block_other,
        values,
        weights,
    ) && next_one.wf() && next_other.wf() && next_one.same_clip(one) && next_other.same_clip(other)
        && next_one.block_entered(one, block_one) && next_other.block_entered(other, block_other) {
        lemma_same_block(one, other, values, weights, block_one, block_other);
        let width = selection_width(block_one);
        let batch = one.settings.batch;
        let (a, c) = (one.sequence(), other.sequence());
        let (a2, c2) = (next_one.sequence(), next_other.sequence());
        let (f2, g2) = (next_one.frame->0, next_other.frame->0);
        assert(a.active() == c.active()) by {
            assert(a.row(0) == c.row(0));
            assert(a.row(0).mask.len() == a.active());
            assert(c.row(0).mask.len() == c.active());
        }
        assert forall|b: int| 0 <= b < batch implies #[trigger] a2.row(b) == c2.row(b) by {
            assert(a.row(b) == c.row(b));
            let now_a = next_one.with_query(a.pending_query);
            let now_c = next_other.with_query(c.pending_query);
            assert(now_a.row(b) == a2.row(b));
            assert(now_c.row(b) == c2.row(b));
            assert(one.read().row(b) == a.row(b));
            assert(other.read().row(b) == c.row(b));
            if width > 0 {
                assert(f.generation_tail_positions@[b]@ == g.generation_tail_positions@[b]@);
                assert(a.row(b).generated(f.generation_tail_positions@, b, width) == c.row(
                    b,
                ).generated(g.generation_tail_positions@, b, width)) by {
                    assert(a.row(b).generated(
                        f.generation_tail_positions@,
                        b,
                        width,
                    ).positions =~= c.row(b).generated(
                        g.generation_tail_positions@,
                        b,
                        width,
                    ).positions);
                }
            }
        }
        assert forall|b: int| 0 <= b < f2.batch() implies #[trigger] f2.row(b) == g2.row(b) by {
            assert(f.row(b) == g.row(b));
            assert(block_one.tokens@[b]@ == block_other.tokens@[b]@);
            assert(block_one.valid@[b]@ == block_other.valid@[b]@);
            assert(block_one.confidences@[b]@ == block_other.confidences@[b]@);
        }
        assert forall|b: int| 0 <= b < f2.batch() implies (
        #[trigger] f2.generation_tail_positions@[b])@ == g2.generation_tail_positions@[b]@ by {
            assert(f.generation_tail_positions@[b]@ == g.generation_tail_positions@[b]@);
        }
        assert forall|b: int| 0 <= b < f2.batch() implies (
        #[trigger] f2.last_generated_indices@[b])@ == g2.last_generated_indices@[b]@ by {
            assert(f.last_generated_indices@[b]@ == g.last_generated_indices@[b]@);
            assert(one.read().active() == a.active());
            assert(other.read().active() == c.active());
        }
    }
}

/// The same scores select the same block.
proof fn lemma_same_block(
    one: GenerationRun,
    other: GenerationRun,
    values: Seq<Binary32>,
    weights: Seq<Binary32>,
    block_one: GreedyTokenSelection,
    block_other: GreedyTokenSelection,
)
    requires
        alike(one, other),
        one.selects(block_one, values, weights),
        other.selects(block_other, values, weights),
    ensures
        selection_width(block_one) == selection_width(block_other),
        forall|b: int|
            0 <= b < one.settings.batch ==> (#[trigger] block_one.tokens@[b])@
                == block_other.tokens@[b]@,
        forall|b: int|
            0 <= b < one.settings.batch ==> (#[trigger] block_one.valid@[b])@
                == block_other.valid@[b]@,
        forall|b: int|
            0 <= b < one.settings.batch ==> (#[trigger] block_one.confidences@[b])@
                == block_other.confidences@[b]@,
{
    let batch = one.settings.batch as nat;
    let steps = one.settings.num_multi_token_pred as nat;
    let vocab = one.settings.vocab as nat;
    if packed_stride(steps, vocab) > usize::MAX || batch * packed_stride(steps, vocab)
        > values.len() {
        assert forall|b: int| 0 <= b < batch implies (#[trigger] block_one.tokens@[b])@
            == block_other.tokens@[b]@ by {
            assert(block_one.tokens@[b]@ =~= Seq::empty());
            assert(block_other.tokens@[b]@ =~= Seq::empty());
        }
        assert forall|b: int| 0 <= b < batch implies (#[trigger] block_one.valid@[b])@
            == block_other.valid@[b]@ by {
            assert(block_one.valid@[b]@ =~= Seq::empty());
            assert(block_other.valid@[b]@ =~= Seq::empty());
        }
        assert forall|b: int| 0 <= b < batch implies (#[trigger] block_one.confidences@[b])@
            == block_other.confidences@[b]@ by {
            assert(block_one.confidences@[b]@ =~= Seq::empty());
            assert(block_other.confidences@[b]@ =~= Seq::empty());
        }
    } else {
        let rows_one = |b: int|
            row_selection(packed_row(values, weights, steps, vocab, b), one.rules(b), steps);
        let rows_other = |b: int|
            row_selection(packed_row(values, weights, steps, vocab, b), other.rules(b), steps);
        assert forall|b: int| 0 <= b < batch implies #[trigger] rows_one(b) == rows_other(b) by {
            assert(one.frame->0.row(b) == other.frame->0.row(b));
            assert(one.rules(b) == other.rules(b));
        }
        lemma_same_longest(rows_one, rows_other, batch);
        assert(block_one.holds(rows_one, batch, one.settings.eos_token_id));
        assert(block_other.holds(rows_other, batch, one.settings.eos_token_id));
        assert forall|b: int| 0 <= b < batch implies (#[trigger] block_one.tokens@[b])@
            == block_other.tokens@[b]@ by {
            assert(rows_one(b) == rows_other(b));
        }
        assert forall|b: int| 0 <= b < batch implies (#[trigger] block_one.valid@[b])@
            == block_other.valid@[b]@ by {
            assert(rows_one(b) == rows_other(b));
        }
        assert forall|b: int| 0 <= b < batch implies (#[trigger] block_one.confidences@[b])@
            == block_other.confidences@[b]@ by {
            assert(rows_one(b) == rows_other(b));
        }
    }
    if batch > 0 {
        assert(block_one.tokens@[0]@ == block_other.tokens@[0]@);
    }
}

/// Selections that are the same row by row have the same longest row.
pub(crate) proof fn lemma_same_longest(
    one: spec_fn(int) -> RowSelection,
    other: spec_fn(int) -> RowSelection,
    k: nat,
)
    requires
        forall|b: int| 0 <= b < k ==> #[trigger] one(b) == other(b),
    ensures
        longest_selection(one, k) == longest_selection(other, k),
    decreases k,
{
    if k > 0 {
        lemma_same_longest(one, other, (k - 1) as nat);
        assert(one(k - 1) == other(k - 1));
    }
}

/// Runs that stand alike close their frame alike: the next frame goes on with the same sequence,
/// and outputs that were the same stay the same.
pub proof fn lemma_runs_close_alike(
    one: GenerationRun,
    other: GenerationRun,
    next_one: GenerationRun,
    next_other: GenerationRun,
)
    requires
        alike(one, other),
        next_one.wf(),
        next_other.wf(),
        next_one.frame_closed(one),
        next_other.frame_closed(other),
    ensures
        comparable(next_one, next_other),
        same_sequence(next_one.sequence(), next_other.sequence()),
        same_progress(one, other) ==> same_progress(next_one, next_other),
{
    let (f, g) = (one.frame->0, other.frame->0);
    let (a, c) = (one.sequence(), other.sequence());
    let (a2, c2) = (next_one.sequence(), next_other.sequence());
    let batch = one.settings.batch as nat;
    assert(f.count() == g.count()) by {
        if f.batch() > 0 {
            assert(f.row(0) == g.row(0));
            assert(f.row(0).tokens.len() == f.count());
            assert(g.row(0).tokens.len() == g.count());
        }
    }
    assert forall|b: int| 0 <= b < a2.batch implies #[trigger] a2.row(b) == c2.row(b) by {
        assert(a.row(b) == c.row(b));
        assert(f.row(b) == g.row(b));
        assert(f.last_generated_indices@[b]@ == g.last_generated_indices@[b]@);
    }
    if same_progress(one, other) {
        assert forall|b: int| 0 <= b < batch implies (#[trigger] next_one.output.gazing_pos@[b])@
            == next_other.output.gazing_pos@[b]@ by {
            assert(one.output.gazing_pos@[b]@ == other.output.gazing_pos@[b]@);
            assert(f.row(b) == g.row(b));
        }
        assert forall|b: int| 0 <= b < batch implies (#[trigger] next_one.output.if_padded_gazing@[b])@
            == next_other.output.if_padded_gazing@[b]@ by {
            assert(one.output.if_padded_gazing@[b]@ == other.output.if_padded_gazing@[b]@);
            assert(f.row(b) == g.row(b));
        }
        assert forall|b: int| 0 <= b < batch implies (#[trigger] next_one.output.confidences@[b])@
            == next_other.output.confidences@[b]@ by {
            assert(one.output.confidences@[b]@ == other.output.confidences@[b]@);
            assert(f.row(b) == g.row(b));
        }
    }
}

/// The slots whose positions are still borrowed are not cached.
pub open spec fn borrowed_wait(state: AutoGazeStreamingCacheState) -> bool {
    forall|b: int, k: int|
        0 <= b < state.batch && 0 <= k < state.row(b).pending.len() ==> state.past_len
            <= #[trigger] state.row(b).pending[k]
}

/// The position of a cached slot stays what it was when the slot was read. Opening a frame settles
/// the positions of slots that wait to be read only, and moves the others where slots leave the
/// window; taking a block appends to the rows; closing a frame changes no position, and where its
/// last block waits to be read the borrowed positions are those of that block.
pub proof fn lemma_cached_positions_stay(
    run: GenerationRun,
    next: GenerationRun,
    from: AutoGazeStreamingCacheState,
    dropped: nat,
    selection: GreedyTokenSelection,
    b: int,
    slot: int,
)
    requires
        run.wf(),
        next.wf(),
        run.mode == next.mode,
        run.settings == next.settings,
        !run.mode.on_device(),
        0 <= b < run.settings.batch,
    ensures
        run.resumes(from) && borrowed_wait(from) && next.same_clip(run) && next.frame_started(
            from,
            dropped,
        ) && dropped <= slot < from.past_len && slot < from.active() ==> next.sequence().row(
            b,
        ).positions[slot - dropped] == from.row(b).positions[slot],
        run.resumes(from) && next.same_clip(run) && next.frame_started(from, dropped)
            ==> borrowed_wait(next.sequence()),
        run.next() is Decode && next.same_clip(run) && next.block_entered(run, selection) && 0
            <= slot < run.sequence().active() ==> next.sequence().row(b).positions[slot]
            == run.sequence().row(b).positions[slot] && next.sequence().row(b).mask[slot]
            == run.sequence().row(b).mask[slot],
        run.next() is EndFrame && next.frame_closed(run) ==> next.sequence().row(b).positions
            == run.sequence().row(b).positions,
{
    if run.resumes(from) && next.same_clip(run) && next.frame_started(from, dropped) {
        let now = next.sequence();
        assert forall|c: int, k: int|
            0 <= c < now.batch && 0 <= k < now.row(c).pending.len() implies now.past_len
            <= #[trigger] now.row(c).pending[k] by {
            assert(moved(next, from).row(c) == now.row(c));
            assert(from.row(c).committed().settled().dropped(dropped).pending.len() == 0);
        }
        if borrowed_wait(from) && dropped <= slot < from.past_len && slot < from.active() {
            assert(moved(next, from).row(b) == now.row(b));
            assert(!is_pending(
                from.row(b).pending,
                slot,
                from.row(b).mask.len(),
            ));
            assert(from.row(b).positions.len() == from.active());
        }
    }
    if run.next() is Decode && next.same_clip(run) && next.block_entered(run, selection) {
        assert(next.with_query(run.sequence().pending_query).row(b) == next.sequence().row(b));
        assert(run.read().row(b) == run.sequence().row(b));
        assert(run.sequence().row(b).positions.len() == run.sequence().active());
        assert(run.sequence().row(b).mask.len() == run.sequence().active());
    }
}

/// The last block of the frame waits to be read: nothing was taken after it.
pub open spec fn last_block_waits(run: GenerationRun) -> bool {
    let frame = run.frame->0;
    let state = run.sequence();
    forall|b: int|
        0 <= b < run.settings.batch ==> (#[trigger] frame.last_generated_indices@[b])@
            == slot_range(
            (state.active() - waiting(state.pending_query)) as nat,
            waiting(state.pending_query) as nat,
        ) || frame.last_generated_indices@[b]@.len() == 0
}

/// Where every slot is read once, a block that was just taken waits to be read, and a frame that
/// closes behind it leaves no borrowed position among the cached slots.
pub proof fn lemma_last_block_waits(
    run: GenerationRun,
    next: GenerationRun,
    selection: GreedyTokenSelection,
)
    requires
        run.wf(),
        next.wf(),
        run.mode == next.mode,
        run.settings == next.settings,
        !(run.mode is Uncached),
        !run.mode.on_device(),
    ensures
        run.next() is Decode && next.same_clip(run) && next.block_entered(run, selection)
            && selection_width(selection) > 0 ==> last_block_waits(next),
        run.next() is EndFrame && nothing_skipped(run.sequence()) && last_block_waits(run)
            && next.frame_closed(run) ==> borrowed_wait(next.sequence()),
{
    if run.next() is Decode && next.same_clip(run) && next.block_entered(run, selection)
        && selection_width(selection) > 0 {
        assert(run.read().active() == run.sequence().active());
        assert(next.with_query(run.sequence().pending_query).active()
            == next.sequence().active());
    }
    if run.next() is EndFrame && nothing_skipped(run.sequence()) && last_block_waits(run)
        && next.frame_closed(run) {
        let state = next.sequence();
        assert forall|b: int, k: int|
            0 <= b < state.batch && 0 <= k < state.row(b).pending.len() implies state.past_len
            <= #[trigger] state.row(b).pending[k] by {
            assert(run.sequence().prefix_attention_mask@[0].len() == run.sequence().active());
            assert(state.row(b).pending == run.frame->0.last_generated_indices@[b]@);
        }
    }
}

} // verus!
