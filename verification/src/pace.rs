//! A decoder on the device reads what a decoder on the host reads.
//!
//! A run whose tokens are selected on the device keeps the sequence of a run whose tokens are
//! selected on the host, however often it reads back. Where it gets ahead, because the host has
//! nothing left to select or selects a block of fewer tokens, reading back brings it to where the
//! host is. Before every step that counts both give their decoders the same mask, the same
//! positions and the same part of the sequence to read, and between frames they hold the same
//! window.
use crate::decode::{selection_width, RowModel};
use crate::device::{
    chunk_result, lemma_padding_is_block, rows_count, rows_finished, rows_stepped, step_width,
    AutoGazeDecodeStrategy, ChunkOutcome,
};
use crate::device_agreement::{lemma_stays_finished, rows_same, same_but_confidence};
use crate::generation::{waiting, GenerationMode, GenerationRun};
use crate::positions::{
    all_marked, cut_to, entries_below, mask_prefix, row_marked, row_slice, slot_range,
};
use crate::selection::GreedyTokenSelection;
use crate::streaming::{inputs_for, AutoGazeStreamingCacheState, SequenceRow, StepInputs};
use crate::trace::{single, ZERO_BITS};
use vstd::prelude::*;

verus! {

/// The two sequences hold the same slots, of which the same are cached and the same wait to be
/// read.
pub open spec fn same_slots(
    one: AutoGazeStreamingCacheState,
    other: AutoGazeStreamingCacheState,
) -> bool {
    &&& one.batch == other.batch
    &&& one.past_len == other.past_len
    &&& one.pending_query == other.pending_query
    &&& forall|b: int| 0 <= b < one.batch ==> #[trigger] one.row(b) == other.row(b)
}

/// A stream that is decoded on the host, and the same stream decoded on the device.
pub open spec fn same_stream(host: GenerationRun, device: GenerationRun) -> bool {
    &&& host.wf()
    &&& device.wf()
    &&& host.mode == GenerationMode::Streaming(AutoGazeDecodeStrategy::HostGreedy)
    &&& device.mode.on_device()
    &&& host.settings == device.settings
    &&& host.cache.horizon_frames == device.cache.horizon_frames
}

/// The open frames of the two runs begin at the same place of the same window, and borrow the same
/// positions.
pub open spec fn same_place(host: GenerationRun, device: GenerationRun) -> bool {
    &&& same_stream(host, device)
    &&& host.frame is Some
    &&& device.frame is Some
    &&& host.sequence().frame_token_lengths@ == device.sequence().frame_token_lengths@
    &&& host.frame->0.generation_prefix_len == device.frame->0.generation_prefix_len
    &&& forall|b: int|
        0 <= b < host.settings.batch ==> (
        #[trigger] host.frame->0.generation_tail_positions@[b])@
            == device.frame->0.generation_tail_positions@[b]@
}

/// The two runs stand at the same place of their sequences.
pub open spec fn in_pace(host: GenerationRun, device: GenerationRun) -> bool {
    &&& same_place(host, device)
    &&& same_slots(host.sequence(), device.sequence())
}

/// The first `n` slots of a row.
pub open spec fn shortened(row: SequenceRow, n: nat) -> SequenceRow {
    SequenceRow {
        mask: cut_to(row.mask, n as int),
        positions: cut_to(row.positions, n as int),
        ..row
    }
}

/// The sequence of the device run goes on where that of the host run ends.
pub open spec fn ahead(host: GenerationRun, device: GenerationRun) -> bool {
    let (a, c) = (host.sequence(), device.sequence());
    &&& same_place(host, device)
    &&& a.active() <= c.active()
    &&& forall|b: int|
        0 <= b < a.batch ==> #[trigger] a.row(b) == shortened(c.row(b), a.active())
}

/// Sequences with the same slots are equally long.
proof fn lemma_same_active(
    one: AutoGazeStreamingCacheState,
    other: AutoGazeStreamingCacheState,
)
    requires
        one.wf(),
        other.wf(),
        one.batch == other.batch,
        forall|b: int| 0 <= b < one.batch ==> #[trigger] one.row(b) == other.row(b),
    ensures
        one.active() == other.active(),
{
    if one.batch > 0 {
        assert(one.row(0) == other.row(0));
        assert(one.row(0).mask.len() == one.active());
        assert(other.row(0).mask.len() == other.active());
    }
}

/// Runs that go on with the same sequence open the next frame in pace: the same slots leave the
/// window.
pub proof fn lemma_opens_in_pace(
    host: GenerationRun,
    device: GenerationRun,
    from_host: AutoGazeStreamingCacheState,
    from_device: AutoGazeStreamingCacheState,
    next_host: GenerationRun,
    next_device: GenerationRun,
    dropped_host: nat,
    dropped_device: nat,
)
    requires
        same_stream(host, device),
        host.resumes(from_host),
        device.resumes(from_device),
        from_host.fresh() && from_device.fresh() || same_slots(from_host, from_device)
            && from_host.frame_token_lengths@ == from_device.frame_token_lengths@,
        next_host.wf(),
        next_device.wf(),
        next_host.same_clip(host),
        next_device.same_clip(device),
        next_host.frame is Some,
        next_device.frame is Some,
        next_host.frame_started(from_host, dropped_host),
        next_device.frame_started(from_device, dropped_device),
    ensures
        in_pace(next_host, next_device),
        dropped_host == dropped_device,
{
    let (a, c) = (next_host.sequence(), next_device.sequence());
    let (f, g) = (next_host.frame->0, next_device.frame->0);
    assert forall|b: int| 0 <= b < from_host.batch implies #[trigger] from_host.row(b)
        == from_device.row(b) by {
        if from_host.fresh() && from_device.fresh() {
            assert(from_device.row(b) == from_host.row(b));
        }
    }
    lemma_same_active(from_host, from_device);
    assert(from_host.frame_token_lengths@ =~= from_device.frame_token_lengths@);
    assert forall|b: int| 0 <= b < a.batch implies #[trigger] a.row(b) == c.row(b) by {
        assert(from_host.row(b) == from_device.row(b));
        let moved_a = AutoGazeStreamingCacheState { pending_query: from_host.pending_query, ..a };
        let moved_c = AutoGazeStreamingCacheState { pending_query: from_device.pending_query, ..c };
        assert(moved_a.row(b) == a.row(b));
        assert(moved_c.row(b) == c.row(b));
    }
    assert forall|b: int| 0 <= b < f.batch() implies (#[trigger] f.generation_tail_positions@[b])@
        == g.generation_tail_positions@[b]@ by {
        assert(a.row(b) == c.row(b));
        assert(g.generation_tail_positions@[b]@.len() > 0);
    }
}

/// A device run is in pace if it is no further than the host run and has as much to read; a run in
/// pace is no further.
pub proof fn lemma_in_pace(host: GenerationRun, device: GenerationRun)
    ensures
        in_pace(host, device) ==> ahead(host, device) && host.sequence().active()
            == device.sequence().active(),
        ahead(host, device) && host.sequence().active() == device.sequence().active()
            && host.sequence().pending_query == device.sequence().pending_query ==> in_pace(
            host,
            device,
        ),
{
    let (a, c) = (host.sequence(), device.sequence());
    if in_pace(host, device) {
        lemma_same_active(a, c);
        assert forall|b: int| 0 <= b < a.batch implies #[trigger] a.row(b) == shortened(
            c.row(b),
            a.active(),
        ) by {
            assert(a.row(b) == c.row(b));
            assert(a.row(b).mask.len() == a.active());
            assert(a.row(b).positions.len() == a.active());
        }
    }
    if ahead(host, device) && a.active() == c.active() && a.pending_query == c.pending_query {
        assert forall|b: int| 0 <= b < a.batch implies #[trigger] a.row(b) == c.row(b) by {
            assert(c.row(b).mask.len() == c.active());
            assert(c.row(b).positions.len() == c.active());
        }
    }
}

/// Runs in pace take a block each, one selected on the host and one left on the device: they stay
/// in pace if the block of the host is full, and otherwise the device gets ahead.
pub proof fn lemma_steps_in_pace(
    host: GenerationRun,
    device: GenerationRun,
    next_host: GenerationRun,
    next_device: GenerationRun,
    selection: GreedyTokenSelection,
)
    requires
        in_pace(host, device),
        next_host.wf(),
        next_device.wf(),
        next_host.same_clip(host),
        next_device.same_clip(device),
        next_host.block_entered(host, selection),
        next_device.step_entered(device),
        0 < selection_width(selection) <= host.settings.num_multi_token_pred,
    ensures
        ahead(next_host, next_device),
        selection_width(selection) == host.settings.num_multi_token_pred ==> in_pace(
            next_host,
            next_device,
        ),
{
    let w = selection_width(selection);
    let m = host.settings.num_multi_token_pred as nat;
    let (f, g) = (host.frame->0, device.frame->0);
    let (a, c) = (host.sequence(), device.sequence());
    let (a2, c2) = (next_host.sequence(), next_device.sequence());
    let now_a = next_host.with_query(a.pending_query);
    let now_c = next_device.with_query(c.pending_query);
    lemma_same_active(a, c);
    assert(host.read().active() == a.active());
    assert(device.read().active() == c.active());
    assert(now_a.active() == a2.active());
    assert(now_c.active() == c2.active());
    assert forall|b: int| 0 <= b < a2.batch implies #[trigger] a2.row(b) == shortened(
        c2.row(b),
        a2.active(),
    ) by {
        assert(a.row(b) == c.row(b));
        assert(now_a.row(b) == a2.row(b));
        assert(now_c.row(b) == c2.row(b));
        assert(host.read().row(b) == a.row(b));
        assert(device.read().row(b) == c.row(b));
        assert(a.row(b).mask.len() == a.active());
        assert(a.row(b).positions.len() == a.active());
        assert(f.generation_tail_positions@[b]@ == g.generation_tail_positions@[b]@);
        let one = a.row(b).generated(f.generation_tail_positions@, b, w);
        let other = c.row(b).generated(g.generation_tail_positions@, b, m);
        assert(a2.row(b) == one);
        assert(c2.row(b) == other);
        assert(one.mask =~= cut_to(other.mask, a2.active() as int));
        assert(one.positions =~= cut_to(other.positions, a2.active() as int));
    }
    assert forall|b: int| 0 <= b < host.settings.batch implies (
    #[trigger] next_host.frame->0.generation_tail_positions@[b])@
        == next_device.frame->0.generation_tail_positions@[b]@ by {
        assert(f.generation_tail_positions@[b]@ == g.generation_tail_positions@[b]@);
    }
    lemma_in_pace(next_host, next_device);
}

/// A device run that selects one more block stays ahead of a host run that has nothing left to
/// select.
pub proof fn lemma_device_gets_ahead(
    host: GenerationRun,
    device: GenerationRun,
    next_device: GenerationRun,
)
    requires
        ahead(host, device),
        next_device.wf(),
        next_device.same_clip(device),
        next_device.step_entered(device),
    ensures
        ahead(host, next_device),
{
    let m = host.settings.num_multi_token_pred as nat;
    let (a, c, c2) = (host.sequence(), device.sequence(), next_device.sequence());
    let g = device.frame->0;
    assert forall|b: int| 0 <= b < host.settings.batch implies (
    #[trigger] host.frame->0.generation_tail_positions@[b])@
        == next_device.frame->0.generation_tail_positions@[b]@ by {}
    assert(device.read().active() == c.active());
    assert(next_device.with_query(c.pending_query).active() == c2.active());
    assert forall|b: int| 0 <= b < a.batch implies #[trigger] a.row(b) == shortened(
        c2.row(b),
        a.active(),
    ) by {
        let now = next_device.with_query(c.pending_query);
        assert(now.row(b) == c2.row(b));
        assert(device.read().row(b) == c.row(b));
        assert(c2.row(b) == c.row(b).generated(g.generation_tail_positions@, b, m));
        assert(a.row(b) == shortened(c.row(b), a.active()));
        assert(c.row(b).mask.len() == c.active());
        assert(c.row(b).positions.len() == c.active());
        assert(shortened(c2.row(b), a.active()).mask =~= shortened(c.row(b), a.active()).mask);
        assert(shortened(c2.row(b), a.active()).positions =~= shortened(
            c.row(b),
            a.active(),
        ).positions);
    }
}

/// Reading a chunk back brings the runs in pace, if the host has taken as many tokens and as many
/// wait to be read.
pub proof fn lemma_reads_back_in_pace(
    host: GenerationRun,
    device: GenerationRun,
    next_device: GenerationRun,
    selection: GreedyTokenSelection,
    outcome: ChunkOutcome,
)
    requires
        ahead(host, device),
        next_device.wf(),
        next_device.same_clip(device),
        device.next() is ReadBack,
        next_device.chunk_entered(device, selection, outcome),
        next_device.frame->0.count() == host.frame->0.count(),
        host.sequence().pending_query == Some(outcome.last_new_tokens),
    ensures
        in_pace(host, next_device),
{
    let (a, c, c2) = (host.sequence(), device.sequence(), next_device.sequence());
    let now = next_device.with_query(c.pending_query);
    let m = host.settings.num_multi_token_pred;
    assert(0 * m == 0) by (nonlinear_arith);
    assert(host.frame->0.open_slots(a) == 0);
    assert(now.active() == c2.active());
    assert(a.active() == c2.active());
    assert forall|b: int| 0 <= b < a.batch implies #[trigger] a.row(b) == shortened(
        c2.row(b),
        a.active(),
    ) by {
        assert(a.row(b) == shortened(c.row(b), a.active()));
        assert(now.row(b) == c2.row(b));
        assert(c.row(b).mask.len() == c.active());
        assert(c.row(b).positions.len() == c.active());
    }
    assert forall|b: int| 0 <= b < host.settings.batch implies (
    #[trigger] host.frame->0.generation_tail_positions@[b])@
        == next_device.frame->0.generation_tail_positions@[b]@ by {}
    lemma_in_pace(host, next_device);
}

/// The slots of the steps that are not read back follow on those of the frame.
pub open spec fn chunk_follows(run: GenerationRun) -> bool {
    let m = run.settings.num_multi_token_pred as nat;
    let frame = run.frame->0;
    forall|k: int, b: int|
        0 <= k < run.chunk@.len() && 0 <= b < run.settings.batch ==> (
        #[trigger] run.chunk@[k]@[b])@ == slot_range(
            (frame.generation_prefix_len + frame.count() + k * m) as nat,
            m,
        )
}

/// A step that is selected on the device takes the slots behind those of the steps before it.
pub proof fn lemma_chunk_follows(run: GenerationRun, next: GenerationRun)
    requires
        run.wf(),
        next.wf(),
        run.frame is Some,
        next.same_clip(run),
        next.step_entered(run),
        chunk_follows(run),
    ensures
        chunk_follows(next),
{
    let m = run.settings.num_multi_token_pred as nat;
    let (f, g) = (run.frame->0, next.frame->0);
    assert forall|k: int, b: int|
        0 <= k < next.chunk@.len() && 0 <= b < next.settings.batch implies (
    #[trigger] next.chunk@[k]@[b])@ == slot_range(
        (g.generation_prefix_len + g.count() + k * m) as nat,
        m,
    ) by {
        assert(g.rows()[b] == f.rows()[b]);
        assert(g.rows()[0] == f.rows()[0]);
        assert(g.row(0).tokens == f.row(0).tokens);
        assert(f.count() == g.count());
        if k < run.chunk@.len() {
            assert(next.chunk@.drop_last()[k] == run.chunk@[k]);
            assert(run.chunk@[k]@[b]@ == slot_range(
                (f.generation_prefix_len + f.count() + k * m) as nat,
                m,
            ));
        } else {
            assert(next.chunk@[k] == next.chunk@.last());
            assert(next.chunk@.last()@[b]@ == slot_range(run.sequence().active(), m));
        }
    }
}

/// The slots that count of a chunk: those of full steps, and those of the last one.
proof fn lemma_chunk_slots(
    rows: Seq<RowModel>,
    selection: GreedyTokenSelection,
    k: nat,
    steps: nat,
    last: nat,
    m: nat,
    max: nat,
    eos: i64,
)
    requires
        rows.len() > 0,
    ensures
        ({
            let (after, counted, width) = chunk_result(
                rows,
                selection,
                k,
                steps,
                last,
                m,
                max,
                eos,
            );
            &&& after.len() == rows.len()
            &&& counted >= k
            &&& k <= steps ==> counted <= steps
            &&& counted == k ==> after == rows && width == last
            &&& counted > k ==> rows_count(after) == rows_count(rows) + (counted - k - 1) * m
                + width && width <= m
        }),
    decreases steps - k,
{
    if k < steps && rows_count(rows) < max && !rows_finished(rows) {
        let w = step_width(rows, m, max);
        let stepped = rows_stepped(rows, selection, k, m, max, eos);
        lemma_padding_is_block(rows[0], eos, w, w);
        lemma_stays_finished(
            rows[0],
            Seq::new(w, |i: int| eos),
            Seq::new(w, |i: int| false),
            Seq::new(w, |i: int| single(ZERO_BITS)),
            w,
        );
        let at = (k * m) as int;
        lemma_stays_finished(
            rows[0],
            selection.tokens@[0]@.subrange(at, at + w),
            selection.valid@[0]@.subrange(at, at + w),
            selection.confidences@[0]@.subrange(at, at + w),
            w,
        );
        assert(rows_count(stepped) == rows_count(rows) + w);
        lemma_chunk_slots(stepped, selection, k + 1, steps, w, m, max, eos);
        let counted = chunk_result(stepped, selection, k + 1, steps, w, m, max, eos).1;
        assert((counted - k - 1) * m == (counted - (k + 1) - 1) * m + m) by (nonlinear_arith);
        assert(0 * m == 0) by (nonlinear_arith);
    }
}

/// All entries are kept that lie below the bound.
proof fn lemma_all_below(indices: Seq<usize>, bound: int)
    requires
        forall|i: int| 0 <= i < indices.len() ==> #[trigger] indices[i] < bound,
    ensures
        entries_below(indices, bound) == indices,
    decreases indices.len(),
{
    if indices.len() > 0 {
        let before = indices.drop_last();
        assert forall|i: int| 0 <= i < before.len() implies #[trigger] before[i] < bound by {
            assert(indices[i] < bound);
        }
        lemma_all_below(before, bound);
        assert(indices.last() == indices[indices.len() - 1]);
        assert(before.push(indices.last()) =~= indices);
    } else {
        assert(entries_below(indices, bound) =~= indices);
    }
}

/// After a chunk was read back, the block that the frame generated last is the end of the sequence.
pub proof fn lemma_last_block_ends_sequence(
    run: GenerationRun,
    next: GenerationRun,
    selection: GreedyTokenSelection,
    outcome: ChunkOutcome,
    b: int,
)
    requires
        run.wf(),
        next.wf(),
        next.same_clip(run),
        run.next() is ReadBack,
        chunk_follows(run),
        next.chunk_entered(run, selection, outcome),
        0 <= b < run.settings.batch,
    ensures
        outcome.last_new_tokens <= next.sequence().active(),
        next.frame->0.last_generated_indices@[b]@ == slot_range(
            (next.sequence().active() - outcome.last_new_tokens) as nat,
            outcome.last_new_tokens as nat,
        ),
{
    let m = run.settings.num_multi_token_pred as nat;
    let (f, g) = (run.frame->0, next.frame->0);
    let steps = run.chunk@.len();
    let max = f.max_tokens as nat;
    let eos = run.settings.eos_token_id;
    let now = next.with_query(run.sequence().pending_query);
    lemma_chunk_slots(f.rows(), selection, 0, steps, 0, m, max, eos);
    let counted = outcome.actual_steps as nat;
    assert(rows_count(f.rows()) == f.count());
    assert(rows_count(g.rows()) == g.count()) by {
        assert(g.rows().len() == g.batch());
    }
    let last = outcome.last_new_tokens as nat;
    assert(g.count() == f.count() + (counted - 1) * m + last);
    assert((counted - 1) * m >= 0) by (nonlinear_arith)
        requires
            counted >= 1,
    ;
    let from = (f.generation_prefix_len + f.count() + (counted - 1) * m) as nat;
    assert(now.active() == next.sequence().active());
    assert(next.sequence().active() == from + last);
    assert(run.chunk@[counted - 1]@[b]@ == slot_range(from, m));
    let block = cut_to(run.chunk@[counted - 1]@[b]@, last as int);
    assert(block =~= slot_range(from, last));
    assert forall|i: int| 0 <= i < block.len() implies #[trigger] block[i]
        < next.sequence().active() by {
        let n: usize = next.sequence().prefix_attention_mask@[0].len();
        assert(n == next.sequence().active());
    }
    lemma_all_below(block, next.sequence().active() as int);
}

/// Runs in pace whose frames hold the same padding and generated the same block last close their
/// frames in pace: they go on with the same sequence and the same window.
pub proof fn lemma_closes_in_pace(
    host: GenerationRun,
    device: GenerationRun,
    next_host: GenerationRun,
    next_device: GenerationRun,
)
    requires
        in_pace(host, device),
        rows_same(device.frame->0.rows(), host.frame->0.rows()),
        forall|b: int|
            0 <= b < host.settings.batch ==> (#[trigger] host.frame->0.last_generated_indices@[b])@
                == device.frame->0.last_generated_indices@[b]@,
        next_host.wf(),
        next_device.wf(),
        next_host.frame_closed(host),
        next_device.frame_closed(device),
    ensures
        same_stream(next_host, next_device),
        same_slots(next_host.sequence(), next_device.sequence()),
        next_host.sequence().frame_token_lengths@ == next_device.sequence().frame_token_lengths@,
{
    let (f, g) = (host.frame->0, device.frame->0);
    let (a, c) = (host.sequence(), device.sequence());
    let (a2, c2) = (next_host.sequence(), next_device.sequence());
    assert(f.count() == g.count()) by {
        if f.batch() > 0 {
            assert(same_but_confidence(g.rows()[0], f.rows()[0]));
            assert(g.rows()[0] == g.row(0));
            assert(f.rows()[0] == f.row(0));
        }
    }
    assert forall|b: int| 0 <= b < a2.batch implies #[trigger] a2.row(b) == c2.row(b) by {
        assert(a.row(b) == c.row(b));
        assert(same_but_confidence(g.rows()[b], f.rows()[b]));
        assert(g.rows()[b] == g.row(b));
        assert(f.rows()[b] == f.row(b));
        assert(f.last_generated_indices@[b]@ == g.last_generated_indices@[b]@);
    }
    assert(a2.frame_token_lengths@ =~= c2.frame_token_lengths@);
}

/// Of sequences with the same slots the same mask is needed, and the same positions are read.
pub proof fn lemma_same_slots_read(
    one: AutoGazeStreamingCacheState,
    other: AutoGazeStreamingCacheState,
    query: nat,
)
    requires
        one.wf(),
        other.wf(),
        same_slots(one, other),
    ensures
        ({
            let batch = one.batch as nat;
            let keys = (one.past_len + query) as nat;
            &&& all_marked(one.prefix_attention_mask@, keys) == all_marked(
                other.prefix_attention_mask@,
                keys,
            )
            &&& Seq::new(batch, |b: int| mask_prefix(one.row(b).mask, keys)) == Seq::new(
                batch,
                |b: int| mask_prefix(other.row(b).mask, keys),
            )
            &&& Seq::new(
                batch,
                |b: int| row_slice(one.row(b).positions, one.past_len as int, query as int),
            ) == Seq::new(
                batch,
                |b: int| row_slice(other.row(b).positions, other.past_len as int, query as int),
            )
        }),
{
    let batch = one.batch as nat;
    let keys = (one.past_len + query) as nat;
    assert forall|b: int| 0 <= b < batch implies row_marked(
        (#[trigger] other.prefix_attention_mask@[b])@,
        keys,
    ) == row_marked(one.prefix_attention_mask@[b]@, keys) by {
        assert(one.row(b) == other.row(b));
    }
    assert forall|b: int| 0 <= b < batch implies row_marked(
        (#[trigger] one.prefix_attention_mask@[b])@,
        keys,
    ) == row_marked(other.prefix_attention_mask@[b]@, keys) by {
        assert(one.row(b) == other.row(b));
    }
}

/// Runs in pace give their decoders the same to read: what one needs for its next step is what the
/// other needs.
pub proof fn lemma_reads_in_pace(host: GenerationRun, device: GenerationRun, inputs: StepInputs)
    requires
        in_pace(host, device),
    ensures
        ({
            let (a, c) = (host.sequence(), device.sequence());
            inputs_for(inputs, a, waiting(a.pending_query) as nat) == inputs_for(
                inputs,
                c,
                waiting(c.pending_query) as nat,
            )
        }),
{
    let (a, c) = (host.sequence(), device.sequence());
    lemma_same_slots_read(a, c, waiting(a.pending_query) as nat);
}

} // verus!
