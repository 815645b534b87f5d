//! What a run generates does not depend on where its tokens are selected.
//!
//! A run whose tokens are selected on a device, in chunks of any size, generates the tokens, the
//! padding and the frame counts of a run whose tokens are selected on the host, as long as their
//! decoders give the same scores and the scores decide what is selected. Its confidences are marks
//! of validity. That one decoder gives both the same scores is shown in
//! [`crate::decoder_agreement`].
use crate::agreement::lemma_same_longest;
use crate::coverage::{
    coverage_side, normalized_layouts, ratio_positive, share_of_cells, CoverageModel,
};
use crate::decode::{selection_fits, selection_width, tokens_offset, RowModel};
use crate::device::{rows_count, rows_finished, ChunkOutcome};
use crate::device_agreement::{
    device_slots, frame_decided, frame_ends, host_frame, host_rules, host_selections, host_step,
    host_steps, host_width, in_step, lemma_chunk_marked, lemma_device_chunk_matches_host,
    lemma_same_device_slots, lemma_same_ends, lemma_step_takes_width, lemma_steps_lead_to_frame,
    reads_back, row_marked, rows_in_step, rows_marked, rows_same, same_but_confidence, same_logits,
    selection_marked, step_config, validity_mark, FrameScores,
};
use crate::device_select::{device_row, DeviceGreedySelectionConfig};
use crate::generated::AutoGazeGenerateOutput;
use crate::generation::{
    lemma_longest_selection, nothing_generated, GenerationMode, GenerationRun, GenerationSettings,
};
use crate::ieee::{Binary32, Binary64};
use crate::layout::AutoGazeScaleTokenLayout;
use crate::selection::{
    longest_selection, packed_row, packed_stride, padded, row_selection, GreedyTokenSelection,
    TaskLossStop,
};
use crate::streaming::AutoGazeStreamingCacheState;
use vstd::prelude::*;

verus! {

/// What the decoder gives in every step of every frame: the scores and task losses as the host
/// reads them, packed row by row beside their exponentials, and as they lie on the device.
pub struct DecoderScores {
    pub values: spec_fn(int, int) -> Seq<Binary32>,
    pub weights: spec_fn(int, int) -> Seq<Binary32>,
    pub logits: spec_fn(int, int) -> Seq<Binary32>,
    pub losses: spec_fn(int, int) -> Seq<Binary32>,
}

impl DecoderScores {
    /// The scores of frame `f` as the host reads them.
    pub open spec fn on_host(self, settings: GenerationSettings, f: int) -> FrameScores {
        |k: int, b: int|
            packed_row(
                (self.values)(f, k),
                (self.weights)(f, k),
                settings.num_multi_token_pred as nat,
                settings.vocab as nat,
                b,
            )
    }

    /// The scores of frame `f` as they lie on the device.
    pub open spec fn on_device(self, settings: GenerationSettings, f: int) -> FrameScores {
        |k: int, b: int|
            device_row(
                (self.logits)(f, k),
                (self.losses)(f, k),
                settings.num_multi_token_pred as nat,
                settings.vocab as nat,
                b,
            )
    }

    /// There are scores for every row, and the host and the device see the same.
    pub open spec fn agree(self, settings: GenerationSettings) -> bool {
        let m = settings.num_multi_token_pred as nat;
        let stride = packed_stride(m, settings.vocab as nat);
        &&& stride <= usize::MAX
        &&& forall|f: int, k: int|
            0 <= f < settings.frames && 0 <= k ==> settings.batch * stride <= (
            #[trigger] (self.values)(f, k)).len()
        &&& forall|f: int, k: int, b: int|
            0 <= f < settings.frames && 0 <= k && 0 <= b < settings.batch ==> same_logits(
                #[trigger] self.on_host(settings, f)(k, b),
                self.on_device(settings, f)(k, b),
                m,
            )
    }

    /// The scores decide what is selected in every frame: until the frame takes no more tokens, the
    /// best score of every row that takes tokens counts, and some row has tokens left to fill the
    /// block.
    pub open spec fn decide(self, settings: GenerationSettings) -> bool {
        settings.vocab > 0 && forall|f: int|
            0 <= f < settings.frames ==> frame_decided(
                opened_rows(settings),
                #[trigger] self.on_host(settings, f),
                frame_config(settings),
                settings.vocab as nat,
                settings.num_multi_token_pred as nat,
                0,
            )
    }
}

/// The rules by which the tokens of a frame are selected.
pub open spec fn frame_config(settings: GenerationSettings) -> DeviceGreedySelectionConfig {
    DeviceGreedySelectionConfig {
        eos_token_id: settings.eos_token_id,
        max_tokens: settings.max_tokens,
        task_loss_stop: TaskLossStop {
            requirement: settings.task_loss_requirement,
            is_first_token: true,
        },
    }
}

/// Nothing covered, with the share of the cells that is enough.
pub open spec fn nothing_covered(
    scale_layouts: Seq<AutoGazeScaleTokenLayout>,
    stop_ratio: Binary64,
) -> CoverageModel {
    let layouts = normalized_layouts(scale_layouts, 1);
    let side = coverage_side(layouts);
    let share = share_of_cells(stop_ratio, side * side);
    CoverageModel {
        layouts,
        grid: side,
        covered: Seq::new(side * side, |i: int| false),
        stop: (if share < 1 {
            1
        } else if share > side * side {
            (side * side) as int
        } else {
            share as int
        }) as nat,
    }
}

/// The rows of a frame of which nothing is decoded yet.
pub open spec fn opened_rows(settings: GenerationSettings) -> Seq<RowModel> {
    Seq::new(
        settings.batch as nat,
        |b: int|
            RowModel {
                tokens: Seq::empty(),
                padded: Seq::empty(),
                confidences: Seq::empty(),
                finished: false,
                coverage: match settings.coverage_stop_ratio {
                    Some(ratio) => if ratio_positive(ratio) {
                        Some(nothing_covered(settings.scale_layouts@, ratio))
                    } else {
                        None
                    },
                    None => None,
                },
            },
    )
}

/// The rows at the end of frame `f`, where the host selects its tokens.
pub open spec fn frame_rows(
    settings: GenerationSettings,
    scores: DecoderScores,
    f: int,
) -> Seq<RowModel> {
    host_frame(
        opened_rows(settings),
        scores.on_host(settings, f),
        frame_config(settings),
        settings.num_multi_token_pred as nat,
        0,
    )
}

/// The tokens of row `b` after the first `done` frames, each at the place of its frame.
pub open spec fn generated_tokens(
    settings: GenerationSettings,
    scores: DecoderScores,
    b: int,
    done: nat,
) -> Seq<i64>
    decreases done,
{
    if done == 0 {
        Seq::empty()
    } else {
        generated_tokens(settings, scores, b, (done - 1) as nat) + tokens_offset(
            frame_rows(settings, scores, done - 1)[b].tokens,
            (done - 1) * settings.num_vision_tokens_each_frame,
        )
    }
}

/// The padding of row `b` after the first `done` frames.
pub open spec fn generated_padding(
    settings: GenerationSettings,
    scores: DecoderScores,
    b: int,
    done: nat,
) -> Seq<bool>
    decreases done,
{
    if done == 0 {
        Seq::empty()
    } else {
        generated_padding(settings, scores, b, (done - 1) as nat) + frame_rows(
            settings,
            scores,
            done - 1,
        )[b].padded
    }
}

/// The output holds what the host generates in the first `done` frames, whatever the confidences.
pub open spec fn generated_from(
    output: AutoGazeGenerateOutput,
    settings: GenerationSettings,
    scores: DecoderScores,
    done: nat,
) -> bool {
    &&& output.num_gazing_each_frame@.len() == done
    &&& forall|f: int|
        0 <= f < done ==> #[trigger] output.num_gazing_each_frame@[f] == rows_count(
            frame_rows(settings, scores, f),
        ) as usize
    &&& forall|b: int|
        0 <= b < settings.batch ==> (#[trigger] output.gazing_pos@[b])@ == generated_tokens(
            settings,
            scores,
            b,
            done,
        )
    &&& forall|b: int|
        0 <= b < settings.batch ==> (#[trigger] output.if_padded_gazing@[b])@
            == generated_padding(settings, scores, b, done)
}

/// The confidences of the output are marks of validity.
pub open spec fn output_marked(output: AutoGazeGenerateOutput, batch: nat) -> bool {
    forall|b: int|
        0 <= b < batch ==> {
            let confidences = (#[trigger] output.confidences@[b])@;
            let padding = output.if_padded_gazing@[b]@;
            &&& confidences.len() == padding.len()
            &&& forall|i: int|
                0 <= i < padding.len() ==> #[trigger] confidences[i] == validity_mark(!padding[i])
        }
}

/// A run of which nothing is decoded yet.
pub open spec fn begins(run: GenerationRun) -> bool {
    &&& run.wf()
    &&& run.frame is None
    &&& run.done == 0
    &&& nothing_generated(run.output, run.settings.batch as nat)
}

/// `next` is `run` with the next frame opened.
pub open spec fn opens_frame(run: GenerationRun, next: GenerationRun) -> bool {
    &&& run.next() is BeginFrame
    &&& next.wf()
    &&& next.same_clip(run)
    &&& next.chunk == run.chunk
    &&& next.frame is Some
    &&& exists|before: AutoGazeStreamingCacheState, dropped: nat|
        run.resumes(before) && #[trigger] next.frame_started(before, dropped)
}

/// `next` is `run` with a block taken that was selected on the host.
pub open spec fn takes_block(
    run: GenerationRun,
    next: GenerationRun,
    scores: DecoderScores,
) -> bool {
    let k = (run.frame->0.count() / run.settings.num_multi_token_pred as nat) as int;
    &&& run.next() is Decode
    &&& next.wf()
    &&& next.same_clip(run)
    &&& next.chunk == run.chunk
    &&& exists|selection: GreedyTokenSelection|
        run.selects(
            selection,
            (scores.values)(run.done as int, k),
            (scores.weights)(run.done as int, k),
        ) && #[trigger] next.block_entered(run, selection)
}

/// `next` is `run` with a step entered that was selected on the device.
pub open spec fn takes_step(run: GenerationRun, next: GenerationRun) -> bool {
    &&& run.next() is DecodeOnDevice
    &&& next.wf()
    &&& next.same_clip(run)
    &&& next.step_entered(run)
}

/// `next` is `run` with a chunk read back that holds what the device selected, marked by validity.
pub open spec fn takes_chunk(
    run: GenerationRun,
    next: GenerationRun,
    scores: DecoderScores,
) -> bool {
    let batch = run.settings.batch as nat;
    let m = run.settings.num_multi_token_pred as nat;
    &&& run.next() is ReadBack
    &&& next.wf()
    &&& next.same_clip(run)
    &&& exists|selection: GreedyTokenSelection, outcome: ChunkOutcome|
        {
            &&& selection_fits(selection, batch, run.chunk@.len() * m)
            &&& selection_marked(selection, batch)
            &&& reads_back(
                selection,
                batch,
                scores.on_device(run.settings, run.done as int),
                frame_config(run.settings),
                run.settings.vocab as nat,
                m,
                run.frame->0.count() / m,
                run.chunk@.len(),
            )
            &&& #[trigger] next.chunk_entered(run, selection, outcome)
        }
}

/// `next` is `run` with the open frame closed.
pub open spec fn closes_frame(run: GenerationRun, next: GenerationRun) -> bool {
    &&& run.next() is EndFrame
    &&& next.wf()
    &&& next.frame_closed(run)
}

/// State `i` of a host run comes of the state before it.
pub open spec fn host_goes_on(states: Seq<GenerationRun>, i: int, scores: DecoderScores) -> bool {
    let (run, next) = (states[i - 1], states[i]);
    opens_frame(run, next) || takes_block(run, next, scores) || closes_frame(run, next)
}

/// State `i` of a device run comes of the state before it.
pub open spec fn device_goes_on(
    states: Seq<GenerationRun>,
    i: int,
    scores: DecoderScores,
) -> bool {
    let (run, next) = (states[i - 1], states[i]);
    ||| opens_frame(run, next)
    ||| takes_step(run, next)
    ||| takes_chunk(run, next, scores)
    ||| closes_frame(run, next)
}

/// The states of a run from its beginning to its end, with every block selected on the host.
pub open spec fn host_run(states: Seq<GenerationRun>, scores: DecoderScores) -> bool {
    &&& states.len() > 0
    &&& begins(states[0])
    &&& !states[0].mode.on_device()
    &&& forall|i: int| 0 < i < states.len() ==> #[trigger] host_goes_on(states, i, scores)
    &&& states.last().next() is Done
}

/// The states of a run from its beginning to its end, with every block selected on the device.
pub open spec fn device_run(states: Seq<GenerationRun>, scores: DecoderScores) -> bool {
    &&& states.len() > 0
    &&& begins(states[0])
    &&& states[0].mode.on_device()
    &&& forall|i: int| 0 < i < states.len() ==> #[trigger] device_goes_on(states, i, scores)
    &&& states.last().next() is Done
}

/// The number of tokens and the finished rows of a frame are those of its rows.
pub proof fn lemma_frame_rows(run: GenerationRun)
    requires
        run.wf(),
        run.frame is Some,
    ensures
        ({
            let frame = run.frame->0;
            &&& frame.rows().len() == run.settings.batch
            &&& rows_count(frame.rows()) == frame.count()
            &&& rows_finished(frame.rows()) == frame.all_finished()
            &&& frame_ends(frame.rows(), frame_config(run.settings)) == (frame.count()
                >= frame.max_tokens || frame.all_finished())
        }),
{
    let frame = run.frame->0;
    let rows = frame.rows();
    if frame.all_finished() {
        assert forall|b: int| 0 <= b < rows.len() implies (#[trigger] rows[b]).finished by {
            assert(frame.finished@[b]);
        }
    }
    if rows_finished(rows) {
        assert forall|b: int| 0 <= b < frame.batch() implies #[trigger] frame.finished@[b] by {
            assert(rows[b].finished);
        }
    }
}

/// A frame opens with rows of which nothing is decoded.
pub proof fn lemma_frame_opens(run: GenerationRun, next: GenerationRun)
    requires
        opens_frame(run, next),
    ensures
        next.frame->0.rows() == opened_rows(run.settings),
        next.frame->0.is_first_token,
        next.sequence().pending_query is Some,
{
    let frame = next.frame->0;
    let settings = run.settings;
    let rows = frame.rows();
    let opened = opened_rows(settings);
    assert forall|b: int| 0 <= b < rows.len() implies #[trigger] rows[b] == opened[b] by {
        let row = frame.row(b);
        assert(row.fresh());
        assert(row.tokens =~= opened[b].tokens);
        assert(row.padded =~= opened[b].padded);
        assert(row.confidences =~= opened[b].confidences);
        match frame.coverage_trackers {
            Some(trackers) => {
                let ratio = settings.coverage_stop_ratio->0;
                assert(trackers@[b].fresh(settings.scale_layouts@, ratio));
                assert(trackers@[b].model().covered =~= nothing_covered(
                    settings.scale_layouts@,
                    ratio,
                ).covered);
            },
            None => {},
        }
    }
    assert(rows =~= opened);
}

/// The open frame is on its way to what the host generates: `k` blocks are taken, and going on from
/// there gives the rows at the end of the frame.
pub open spec fn host_on_course(run: GenerationRun, scores: DecoderScores, k: nat) -> bool {
    let settings = run.settings;
    let given = scores.on_host(settings, run.done as int);
    let config = frame_config(settings);
    let m = settings.num_multi_token_pred as nat;
    let rows = run.frame->0.rows();
    &&& run.sequence().pending_query is Some
    &&& run.frame->0.is_first_token == (k == 0)
    &&& frame_ends(rows, config) || rows_count(rows) == k * m
    &&& frame_decided(rows, given, config, settings.vocab as nat, m, k)
    &&& host_frame(rows, given, config, m, k) == frame_rows(settings, scores, run.done as int)
}

/// The run has generated what the host generates, and its open frame is on its way.
pub open spec fn host_keeps(run: GenerationRun, scores: DecoderScores) -> bool {
    &&& run.wf()
    &&& !run.mode.on_device()
    &&& generated_from(run.output, run.settings, scores, run.done as nat)
    &&& run.frame is Some ==> exists|k: nat| host_on_course(run, scores, k)
}

/// A block that a run selects on the host is a host step: the rows of the frame become what
/// `host_step` says, and the block holds what it says.
pub proof fn lemma_run_takes_host_steps(
    run: GenerationRun,
    next: GenerationRun,
    selection: GreedyTokenSelection,
    values: Seq<Binary32>,
    weights: Seq<Binary32>,
    scores: FrameScores,
    config: DeviceGreedySelectionConfig,
    k: nat,
)
    requires
        run.wf(),
        next.wf(),
        run.frame is Some,
        next.settings == run.settings,
        packed_stride(run.settings.num_multi_token_pred as nat, run.settings.vocab as nat)
            <= usize::MAX,
        run.settings.batch * packed_stride(
            run.settings.num_multi_token_pred as nat,
            run.settings.vocab as nat,
        ) <= values.len(),
        config.eos_token_id == run.settings.eos_token_id,
        config.max_tokens == run.settings.max_tokens,
        step_config(config, k).task_loss_stop == (TaskLossStop {
            requirement: run.settings.task_loss_requirement,
            is_first_token: run.frame->0.is_first_token,
        }),
        forall|b: int|
            0 <= b < run.settings.batch ==> #[trigger] scores(k as int, b) == packed_row(
                values,
                weights,
                run.settings.num_multi_token_pred as nat,
                run.settings.vocab as nat,
                b,
            ),
        run.selects(selection, values, weights),
        next.block_entered(run, selection),
        host_width(
            run.frame->0.rows(),
            scores,
            config,
            run.settings.num_multi_token_pred as nat,
            k,
        ) > 0,
    ensures
        ({
            let rows = run.frame->0.rows();
            let m = run.settings.num_multi_token_pred as nat;
            let w = host_width(rows, scores, config, m, k);
            &&& next.frame->0.rows() == host_step(rows, scores, config, m, k)
            &&& selection_width(selection) == w
            &&& forall|b: int|
                0 <= b < run.settings.batch ==> (#[trigger] selection.tokens@[b])@ == padded(
                    host_selections(rows, scores, config, m, k)(b).tokens,
                    w,
                    config.eos_token_id,
                )
        }),
{
    let settings = run.settings;
    let batch = settings.batch as nat;
    let m = settings.num_multi_token_pred as nat;
    let vocab = settings.vocab as nat;
    let eos = settings.eos_token_id;
    let rows = run.frame->0.rows();
    let stated = |b: int| row_selection(packed_row(values, weights, m, vocab, b), run.rules(b), m);
    let wanted = host_selections(rows, scores, config, m, k);
    assert(selection.holds(stated, batch, eos));
    assert forall|b: int| 0 <= b < batch implies #[trigger] stated(b) == wanted(b) by {
        assert(rows[b] == run.frame->0.row(b));
        assert(run.rules(b) == host_rules(rows[b], config, k));
        assert(scores(k as int, b) == packed_row(values, weights, m, vocab, b));
    }
    lemma_same_longest(stated, wanted, batch);
    let width = longest_selection(stated, batch);
    assert(batch > 0);
    assert(selection.tokens@[0]@ == padded(stated(0).tokens, width, eos));
    lemma_longest_selection(stated, batch, 0);
    assert forall|b: int| 0 <= b < batch implies (#[trigger] selection.tokens@[b])@ == padded(
        wanted(b).tokens,
        width,
        eos,
    ) by {
        assert(stated(b) == wanted(b));
    }
    assert forall|b: int| 0 <= b < batch implies #[trigger] next.frame->0.rows()[b] == host_step(
        rows,
        scores,
        config,
        m,
        k,
    )[b] by {
        assert(stated(b) == wanted(b));
        assert(next.frame->0.row(b) == run.frame->0.row(b).taken_block(
            selection.tokens@[b]@,
            selection.valid@[b]@,
            selection.confidences@[b]@,
            width,
        ));
    }
    assert(next.frame->0.rows() =~= host_step(rows, scores, config, m, k));
}

/// Closing a frame whose rows are those at the end of the frame, whatever their confidences, enters
/// what the host generates.
proof fn lemma_frame_enters(
    run: GenerationRun,
    next: GenerationRun,
    rows: Seq<RowModel>,
    scores: DecoderScores,
)
    requires
        run.wf(),
        closes_frame(run, next),
        run.frame is Some,
        generated_from(run.output, run.settings, scores, run.done as nat),
        rows_same(run.frame->0.rows(), rows),
        rows == frame_rows(run.settings, scores, run.done as int),
    ensures
        generated_from(next.output, next.settings, scores, next.done as nat),
{
    let frame = run.frame->0;
    let settings = run.settings;
    let (before, after) = (run.output, next.output);
    lemma_frame_rows(run);
    assert(rows_count(rows) == frame.count()) by {
        if rows.len() > 0 {
            assert(same_but_confidence(frame.rows()[0], rows[0]));
        }
    }
    assert forall|f: int| 0 <= f < next.done implies #[trigger] after.num_gazing_each_frame@[f]
        == rows_count(frame_rows(settings, scores, f)) as usize by {
        if f < run.done {
            assert(before.num_gazing_each_frame@[f] == after.num_gazing_each_frame@[f]);
        }
    }
    assert forall|b: int| 0 <= b < settings.batch implies (#[trigger] after.gazing_pos@[b])@
        == generated_tokens(settings, scores, b, next.done as nat) by {
        assert(same_but_confidence(frame.rows()[b], rows[b]));
        assert(before.gazing_pos@[b]@ == generated_tokens(settings, scores, b, run.done as nat));
    }
    assert forall|b: int| 0 <= b < settings.batch implies (#[trigger] after.if_padded_gazing@[b])@
        == generated_padding(settings, scores, b, next.done as nat) by {
        assert(same_but_confidence(frame.rows()[b], rows[b]));
        assert(before.if_padded_gazing@[b]@ == generated_padding(
            settings,
            scores,
            b,
            run.done as nat,
        ));
    }
}

/// Whatever a host run does next, it goes on generating what the host generates.
proof fn lemma_host_keeps(run: GenerationRun, next: GenerationRun, scores: DecoderScores)
    requires
        scores.agree(run.settings),
        scores.decide(run.settings),
        run.settings.num_multi_token_pred > 0,
        host_keeps(run, scores),
        opens_frame(run, next) || takes_block(run, next, scores) || closes_frame(run, next),
    ensures
        host_keeps(next, scores),
        next.settings == run.settings,
        next.mode == run.mode,
{
    let settings = run.settings;
    let m = settings.num_multi_token_pred as nat;
    let vocab = settings.vocab as nat;
    let config = frame_config(settings);
    let given = scores.on_host(settings, run.done as int);
    if opens_frame(run, next) {
        lemma_frame_opens(run, next);
        lemma_frame_rows(next);
        assert(0 * m == 0) by (nonlinear_arith);
        assert(rows_count(opened_rows(settings)) == 0);
        assert(host_on_course(next, scores, 0));
    } else {
        let k = choose|k: nat| host_on_course(run, scores, k);
        let rows = run.frame->0.rows();
        lemma_frame_rows(run);
        if takes_block(run, next, scores) {
            assert((k * m) / m == k) by (nonlinear_arith)
                requires
                    m > 0,
            ;
            let selection = choose|selection: GreedyTokenSelection|
                run.selects(
                    selection,
                    (scores.values)(run.done as int, k as int),
                    (scores.weights)(run.done as int, k as int),
                ) && #[trigger] next.block_entered(run, selection);
            lemma_run_takes_host_steps(
                run,
                next,
                selection,
                (scores.values)(run.done as int, k as int),
                (scores.weights)(run.done as int, k as int),
                given,
                config,
                k,
            );
            lemma_step_takes_width(rows, given, config, m, k);
            lemma_frame_rows(next);
            assert((k + 1) * m == k * m + m) by (nonlinear_arith);
            assert(host_on_course(next, scores, k + 1));
        } else {
            assert(rows_same(rows, rows));
            lemma_frame_enters(run, next, rows, scores);
        }
    }
}

/// A run begins with an output that holds nothing.
proof fn lemma_begins(run: GenerationRun, scores: DecoderScores)
    requires
        begins(run),
    ensures
        generated_from(run.output, run.settings, scores, 0),
        output_marked(run.output, run.settings.batch as nat),
{
    assert forall|b: int| 0 <= b < run.settings.batch implies (
    #[trigger] run.output.gazing_pos@[b])@ == generated_tokens(run.settings, scores, b, 0) by {
        assert(run.output.gazing_pos@[b]@.len() == 0);
    }
    assert forall|b: int| 0 <= b < run.settings.batch implies (
    #[trigger] run.output.if_padded_gazing@[b])@ == generated_padding(
        run.settings,
        scores,
        b,
        0,
    ) by {
        assert(run.output.if_padded_gazing@[b]@.len() == 0);
    }
    assert forall|b: int| 0 <= b < run.settings.batch implies (
    #[trigger] run.output.confidences@[b])@.len() == run.output.if_padded_gazing@[b]@.len() by {
        assert(run.output.confidences@[b]@.len() == 0);
        assert(run.output.if_padded_gazing@[b]@.len() == 0);
    }
}

/// The host run generates what the host generates, up to its state `i`.
proof fn lemma_host_generates(states: Seq<GenerationRun>, scores: DecoderScores, i: int)
    requires
        host_run(states, scores),
        scores.agree(states[0].settings),
        scores.decide(states[0].settings),
        states[0].settings.num_multi_token_pred > 0,
        0 <= i < states.len(),
    ensures
        host_keeps(states[i], scores),
        states[i].settings == states[0].settings,
    decreases i,
{
    if i == 0 {
        lemma_begins(states[0], scores);
    } else {
        lemma_host_generates(states, scores, i - 1);
        assert(host_goes_on(states, i, scores));
        lemma_host_keeps(states[i - 1], states[i], scores);
    }
}

/// The tokens of a frame are read back once, at its end.
pub open spec fn reads_once(mode: GenerationMode) -> bool {
    mode matches GenerationMode::Streaming(strategy) && strategy is DeviceTerminalGreedy
}

/// The open frame of a device run is on its way to what the host generates: its rows are those of
/// the host after `k` blocks, but for the confidences, which are marks of validity. A run that
/// reads back once a frame has nothing left to select after it.
pub open spec fn device_on_course(
    run: GenerationRun,
    scores: DecoderScores,
    k: nat,
    rows: Seq<RowModel>,
) -> bool {
    let settings = run.settings;
    let given = scores.on_host(settings, run.done as int);
    let config = frame_config(settings);
    let vocab = settings.vocab as nat;
    let m = settings.num_multi_token_pred as nat;
    let frame = run.frame->0;
    &&& run.sequence().pending_query is Some
    &&& rows_same(frame.rows(), rows)
    &&& rows_marked(frame.rows())
    &&& frame_ends(rows, config) || rows_in_step(rows, given, config, vocab, m, k)
    &&& frame_decided(rows, given, config, vocab, m, k)
    &&& host_frame(rows, given, config, m, k) == frame_rows(settings, scores, run.done as int)
    &&& frame.is_first_token ==> k == 0
    &&& reads_once(run.mode) && run.chunk@.len() == 0 && !frame.is_first_token ==> frame_ends(
        rows,
        config,
    )
    &&& reads_once(run.mode) && run.chunk@.len() > 0 ==> k == 0
}

/// The run has generated what the host generates, with marks of validity as confidences, and its
/// open frame is on its way.
pub open spec fn device_keeps(run: GenerationRun, scores: DecoderScores) -> bool {
    &&& run.wf()
    &&& run.mode.on_device()
    &&& generated_from(run.output, run.settings, scores, run.done as nat)
    &&& output_marked(run.output, run.settings.batch as nat)
    &&& run.frame is Some ==> exists|k: nat, rows: Seq<RowModel>|
        device_on_course(run, scores, k, rows)
}

/// What is read back from scores on the device is what is read back from the scores of the host.
proof fn lemma_reads_back_alike(
    selection: GreedyTokenSelection,
    settings: GenerationSettings,
    scores: DecoderScores,
    f: int,
    from: nat,
    steps: nat,
)
    requires
        0 <= f < settings.frames,
        settings.vocab > 0,
        scores.agree(settings),
        reads_back(
            selection,
            settings.batch as nat,
            scores.on_device(settings, f),
            frame_config(settings),
            settings.vocab as nat,
            settings.num_multi_token_pred as nat,
            from,
            steps,
        ),
    ensures
        reads_back(
            selection,
            settings.batch as nat,
            scores.on_host(settings, f),
            frame_config(settings),
            settings.vocab as nat,
            settings.num_multi_token_pred as nat,
            from,
            steps,
        ),
{
    let (one, other) = (scores.on_host(settings, f), scores.on_device(settings, f));
    let config = frame_config(settings);
    let vocab = settings.vocab as nat;
    let m = settings.num_multi_token_pred as nat;
    assert forall|b: int, i: nat| 0 <= b < settings.batch && i < steps implies (
    #[trigger] device_slots(one, config, vocab, m, b, from + i)) == device_slots(
        other,
        config,
        vocab,
        m,
        b,
        from + i,
    ) by {
        assert forall|k: int| 0 <= k implies same_logits(#[trigger] one(k, b), other(k, b), m)
            && one(k, b).vocab > 0 by {
            assert(same_logits(scores.on_host(settings, f)(k, b), other(k, b), m));
        }
        lemma_same_device_slots(one, other, config, vocab, m, b, from + i);
    }
}

/// Reading a chunk back keeps the open frame on its way.
proof fn lemma_chunk_keeps(
    run: GenerationRun,
    next: GenerationRun,
    scores: DecoderScores,
    k: nat,
    rows: Seq<RowModel>,
)
    requires
        scores.agree(run.settings),
        scores.decide(run.settings),
        run.wf(),
        run.mode.on_device(),
        run.frame is Some,
        device_on_course(run, scores, k, rows),
        takes_chunk(run, next, scores),
    ensures
        device_on_course(
            next,
            scores,
            k + run.chunk@.len(),
            host_steps(
                rows,
                scores.on_host(run.settings, run.done as int),
                frame_config(run.settings),
                run.settings.num_multi_token_pred as nat,
                k,
                k + run.chunk@.len(),
            ),
        ),
{
    let settings = run.settings;
    let batch = settings.batch as nat;
    let m = settings.num_multi_token_pred as nat;
    let vocab = settings.vocab as nat;
    let config = frame_config(settings);
    let given = scores.on_host(settings, run.done as int);
    let steps = run.chunk@.len();
    let frame = run.frame->0;
    lemma_frame_rows(run);
    lemma_frame_rows(next);
    lemma_same_ends(frame.rows(), rows);
    assert(rows.len() == batch);
    assert(batch > 0);
    assert(rows[0].tokens.len() == k * m);
    assert(frame.count() == k * m);
    assert((k * m) / m == k) by (nonlinear_arith)
        requires
            m > 0,
    ;
    let (selection, outcome) = choose|selection: GreedyTokenSelection, outcome: ChunkOutcome|
        {
            &&& selection_fits(selection, batch, steps * m)
            &&& selection_marked(selection, batch)
            &&& reads_back(
                selection,
                batch,
                scores.on_device(settings, run.done as int),
                config,
                vocab,
                m,
                k,
                steps,
            )
            &&& #[trigger] next.chunk_entered(run, selection, outcome)
        };
    lemma_reads_back_alike(selection, settings, scores, run.done as int, k, steps);
    assert(settings.frames * settings.num_vision_tokens_each_frame >= 0) by (nonlinear_arith);
    lemma_device_chunk_matches_host(
        frame.rows(),
        rows,
        selection,
        given,
        config,
        vocab,
        m,
        k,
        steps,
    );
    lemma_steps_lead_to_frame(rows, given, config, vocab, m, k, k + steps);
    lemma_chunk_marked(
        frame.rows(),
        selection,
        0,
        steps,
        0,
        m,
        settings.max_tokens as nat,
        settings.eos_token_id,
    );
    let after = host_steps(rows, given, config, m, k, k + steps);
    assert(rows_same(next.frame->0.rows(), after));
    lemma_same_ends(next.frame->0.rows(), after);
    if reads_once(run.mode) {
        assert(steps * m >= settings.max_tokens);
        if !frame_ends(after, config) {
            assert(after[0].tokens.len() == (k + steps) * m);
        }
    }
}

/// Closing a frame whose confidences are marks of validity keeps those of the output such marks.
pub proof fn lemma_closing_keeps_marks(run: GenerationRun, next: GenerationRun)
    requires
        run.wf(),
        run.frame is Some,
        closes_frame(run, next),
        output_marked(run.output, run.settings.batch as nat),
        rows_marked(run.frame->0.rows()),
    ensures
        output_marked(next.output, run.settings.batch as nat),
{
    assert forall|b: int| 0 <= b < run.settings.batch implies {
        let confidences = (#[trigger] next.output.confidences@[b])@;
        let padding = next.output.if_padded_gazing@[b]@;
        &&& confidences.len() == padding.len()
        &&& forall|i: int|
            0 <= i < padding.len() ==> #[trigger] confidences[i] == validity_mark(!padding[i])
    } by {
        let row = run.frame->0.rows()[b];
        assert(row_marked(row));
        assert(row == run.frame->0.row(b));
        let (old_marks, old_padding) = (
            run.output.confidences@[b]@,
            run.output.if_padded_gazing@[b]@,
        );
        let padding = next.output.if_padded_gazing@[b]@;
        let confidences = next.output.confidences@[b]@;
        assert(confidences == old_marks + row.confidences);
        assert(padding == old_padding + row.padded);
        assert forall|i: int| 0 <= i < padding.len() implies #[trigger] confidences[i]
            == validity_mark(!padding[i]) by {
            if i < old_padding.len() {
                assert(old_marks[i] == validity_mark(!old_padding[i]));
            } else {
                let at = i - old_padding.len();
                assert(row.confidences[at] == validity_mark(!row.padded[at]));
            }
        }
    }
}

/// Whatever a device run does next, it goes on generating what the host generates.
proof fn lemma_device_keeps(run: GenerationRun, next: GenerationRun, scores: DecoderScores)
    requires
        scores.agree(run.settings),
        scores.decide(run.settings),
        device_keeps(run, scores),
        ({
            ||| opens_frame(run, next)
            ||| takes_step(run, next)
            ||| takes_chunk(run, next, scores)
            ||| closes_frame(run, next)
        }),
    ensures
        device_keeps(next, scores),
        next.settings == run.settings,
        next.mode == run.mode,
{
    let settings = run.settings;
    let m = settings.num_multi_token_pred as nat;
    let vocab = settings.vocab as nat;
    let config = frame_config(settings);
    let given = scores.on_host(settings, run.done as int);
    if opens_frame(run, next) {
        let rows = opened_rows(settings);
        lemma_frame_opens(run, next);
        lemma_frame_rows(next);
        assert(0 * m == 0) by (nonlinear_arith);
        assert(rows_same(rows, rows));
        assert(rows_in_step(rows, given, config, vocab, m, 0)) by {
            assert forall|b: int| 0 <= b < rows.len() implies #[trigger] in_step(
                rows,
                given,
                config,
                vocab,
                m,
                0,
                b,
            ) by {
                assert(rows[b].tokens =~= Seq::<i64>::empty());
            }
        }
        assert(device_on_course(next, scores, 0, rows));
    } else {
        let (k, rows) = choose|k: nat, rows: Seq<RowModel>| device_on_course(run, scores, k, rows);
        lemma_frame_rows(run);
        lemma_same_ends(run.frame->0.rows(), rows);
        if takes_step(run, next) {
            assert(device_on_course(next, scores, k, rows));
        } else if takes_chunk(run, next, scores) {
            lemma_chunk_keeps(run, next, scores, k, rows);
            assert(device_on_course(
                next,
                scores,
                k + run.chunk@.len(),
                host_steps(rows, given, config, m, k, k + run.chunk@.len()),
            ));
        } else {
            assert(frame_ends(rows, config));
            lemma_frame_enters(run, next, rows, scores);
            lemma_closing_keeps_marks(run, next);
        }
    }
}

/// The device run generates what the host generates, up to its state `i`.
proof fn lemma_device_generates(states: Seq<GenerationRun>, scores: DecoderScores, i: int)
    requires
        device_run(states, scores),
        scores.agree(states[0].settings),
        scores.decide(states[0].settings),
        0 <= i < states.len(),
    ensures
        device_keeps(states[i], scores),
        states[i].settings == states[0].settings,
    decreases i,
{
    if i == 0 {
        lemma_begins(states[0], scores);
    } else {
        lemma_device_generates(states, scores, i - 1);
        assert(device_goes_on(states, i, scores));
        lemma_device_keeps(states[i - 1], states[i], scores);
    }
}

/// A run generates the same wherever its tokens are selected: over a whole clip, a device run in
/// chunks of any size gives the tokens, the frame counts and the padding of a host run with the
/// same settings, and as confidence one where a slot is valid and zero where it is padded. This
/// holds where their decoders give the same scores and the scores decide what is selected.
pub proof fn lemma_device_run_matches_host_run(
    host: Seq<GenerationRun>,
    device: Seq<GenerationRun>,
    scores: DecoderScores,
)
    requires
        host_run(host, scores),
        device_run(device, scores),
        host[0].settings == device[0].settings,
        scores.agree(host[0].settings),
        scores.decide(host[0].settings),
    ensures
        ({
            let (expected, output) = (host.last().output, device.last().output);
            let batch = host[0].settings.batch as nat;
            &&& output.num_gazing_each_frame@ == expected.num_gazing_each_frame@
            &&& forall|b: int|
                0 <= b < batch ==> (#[trigger] output.gazing_pos@[b])@
                    == expected.gazing_pos@[b]@
            &&& forall|b: int|
                0 <= b < batch ==> (#[trigger] output.if_padded_gazing@[b])@
                    == expected.if_padded_gazing@[b]@
            &&& output_marked(output, batch)
        }),
{
    assert(device[0].settings.num_multi_token_pred >= 1);
    lemma_host_generates(host, scores, host.len() - 1);
    lemma_device_generates(device, scores, device.len() - 1);
    let (expected, output) = (host.last().output, device.last().output);
    assert(host.last().done == device.last().done);
    assert forall|f: int| 0 <= f < output.num_gazing_each_frame@.len() implies #[trigger]
        output.num_gazing_each_frame@[f] == expected.num_gazing_each_frame@[f] by {}
    assert(output.num_gazing_each_frame@ =~= expected.num_gazing_each_frame@);
}

} // verus!
