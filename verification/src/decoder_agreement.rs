//! A decoder gives the same tokens wherever they are selected.
//!
//! A decoder is taken as a function of what it reads: of what it keeps of the slots that it has
//! read, and of the mask, the positions and the contents that it is given to read next. Run by one
//! such decoder, a stream whose tokens are selected on the device in chunks of any size generates
//! the tokens, the padding and the frame counts of the stream whose tokens are selected on the
//! host.
use crate::coverage::ratio_positive;
use crate::decode::{selection_fits, RowModel};
use crate::device::{
    chunk_result, rows_count, rows_finished, rows_stepped, step_width, ChunkOutcome,
};
use crate::device_agreement::{
    block_decided, frame_ends, host_rules, host_selections, host_step, host_width,
    lemma_chunk_marked, lemma_finished_row_is_padded, lemma_keeps_no_coverage,
    lemma_row_takes_slots, lemma_same_device_block, lemma_same_ends, lemma_slots_match_host,
    lemma_step_takes_width, open_flags, rows_marked, rows_same, same_but_confidence, same_logits,
    selection_marked, step_config, FrameScores,
};
use crate::device_select::{
    device_block, device_row, device_step, flags_match, DeviceGreedySelectionConfig, DeviceRow,
};
use crate::generated::AutoGazeGenerateOutput;
use crate::generation::{waiting, GenerationRun, GenerationSettings};
use crate::ieee::Binary32;
use crate::pace::{
    ahead, chunk_follows, in_pace, lemma_chunk_follows, lemma_closes_in_pace,
    lemma_device_gets_ahead, lemma_in_pace, lemma_last_block_ends_sequence, lemma_opens_in_pace,
    lemma_reads_back_in_pace, lemma_same_slots_read, lemma_steps_in_pace, same_slots, same_stream,
};
use crate::positions::{all_marked, flattened, mask_prefix, row_slice, slot_range};
use crate::run_agreement::{
    begins, closes_frame, lemma_closing_keeps_marks, lemma_frame_opens, lemma_frame_rows,
    lemma_run_takes_host_steps, opened_rows, output_marked, reads_once,
};
use crate::selection::{
    packed_row, packed_stride, padded, GreedyTokenSelection, RowScores, TaskLossStop,
};
use crate::streaming::{inputs_for, AutoGazeStreamingCacheState, StepInputs};
use crate::trace::{single, ZERO_BITS};
use vstd::prelude::*;

verus! {

/// What stands in a slot of the sequence.
pub enum Content {
    /// A vision token of a frame of the clip.
    Vision { frame: int, token: int },
    /// A generated token.
    Token(i64),
}

/// What a decoder is given to read: the first slot of the query and the slots up to its end, the
/// mask over those, and the positions and contents of the slots of the query.
pub struct Reading {
    pub query_start: int,
    pub key_len: int,
    pub mask: Option<Seq<i64>>,
    pub positions: Seq<i64>,
    pub contents: Seq<Seq<Content>>,
}

/// What a decoder reads next of a sequence in which `contents` waits to be read.
pub open spec fn reading(
    state: AutoGazeStreamingCacheState,
    contents: Seq<Seq<Content>>,
) -> Reading {
    let query = waiting(state.pending_query);
    let keys = (state.past_len + query) as nat;
    Reading {
        query_start: state.past_len as int,
        key_len: state.past_len + query,
        mask: if all_marked(state.prefix_attention_mask@, keys) {
            None
        } else {
            Some(
                flattened(
                    Seq::new(state.batch as nat, |b: int| mask_prefix(state.row(b).mask, keys)),
                ),
            )
        },
        positions: flattened(
            Seq::new(
                state.batch as nat,
                |b: int| row_slice(state.row(b).positions, state.past_len as int, query),
            ),
        ),
        contents,
    }
}

/// The inputs that a run gives for a step are what the decoder reads.
pub proof fn lemma_inputs_are_read(
    inputs: StepInputs,
    state: AutoGazeStreamingCacheState,
    contents: Seq<Seq<Content>>,
)
    requires
        inputs_for(inputs, state, waiting(state.pending_query) as nat),
    ensures
        reading(state, contents) == (Reading {
            query_start: inputs.query_start as int,
            key_len: inputs.key_len as int,
            mask: match inputs.attention_mask {
                Some(values) => Some(values@),
                None => None,
            },
            positions: inputs.position_ids.values(state.batch as nat),
            contents,
        }),
{
}

/// A decoder: what it keeps of a slot that it reads, and what it gives for the last slot. The
/// scores and task losses are given as the host reads them, packed row by row beside their
/// exponentials, and as they lie on the device. Everything depends on what is kept of the slots
/// read before, and on what is read.
pub struct Decoder {
    pub keeps: spec_fn(Seq<int>, Reading, int) -> int,
    pub values: spec_fn(Seq<int>, Reading) -> Seq<Binary32>,
    pub weights: spec_fn(Seq<int>, Reading) -> Seq<Binary32>,
    pub logits: spec_fn(Seq<int>, Reading) -> Seq<Binary32>,
    pub losses: spec_fn(Seq<int>, Reading) -> Seq<Binary32>,
}

impl Decoder {
    /// What is kept after a reading: one entry for every slot up to the end of the query.
    pub open spec fn kept(self, memory: Seq<int>, read: Reading) -> Seq<int> {
        Seq::new(
            read.key_len as nat,
            |i: int|
                if i < read.query_start {
                    memory[i]
                } else {
                    (self.keeps)(memory, read, i)
                },
        )
    }

    /// The scores as the host reads them.
    pub open spec fn on_host(
        self,
        settings: GenerationSettings,
        memory: Seq<int>,
        read: Reading,
    ) -> FrameScores {
        |k: int, b: int|
            packed_row(
                (self.values)(memory, read),
                (self.weights)(memory, read),
                settings.num_multi_token_pred as nat,
                settings.vocab as nat,
                b,
            )
    }

    /// The scores as they lie on the device.
    pub open spec fn on_device(
        self,
        settings: GenerationSettings,
        memory: Seq<int>,
        read: Reading,
    ) -> FrameScores {
        |k: int, b: int|
            device_row(
                (self.logits)(memory, read),
                (self.losses)(memory, read),
                settings.num_multi_token_pred as nat,
                settings.vocab as nat,
                b,
            )
    }

    /// There are scores for every row, and the host and the device see the same.
    pub open spec fn shows_the_same(self, settings: GenerationSettings) -> bool {
        let m = settings.num_multi_token_pred as nat;
        let stride = packed_stride(m, settings.vocab as nat);
        &&& stride <= usize::MAX
        &&& forall|memory: Seq<int>, read: Reading|
            settings.batch * stride <= (#[trigger] (self.values)(memory, read)).len()
        &&& forall|memory: Seq<int>, read: Reading, b: int|
            0 <= b < settings.batch ==> same_logits(
                #[trigger] self.on_host(settings, memory, read)(0, b),
                self.on_device(settings, memory, read)(0, b),
                m,
            )
    }
}

/// A run, what its decoder keeps of the slots that it has read, and what waits to be read.
pub struct Stage {
    pub run: GenerationRun,
    pub memory: Seq<int>,
    pub waiting: Seq<Seq<Content>>,
}

/// A stage of a run whose tokens are selected on the device: what the device knows of the rows, and
/// the steps that it has selected and that are not read back.
pub struct DeviceStage {
    pub stage: Stage,
    pub flags: Seq<Seq<bool>>,
    pub stopped: Seq<bool>,
    pub steps: Seq<Seq<DeviceRow>>,
}

impl Stage {
    /// What the decoder reads next.
    pub open spec fn read(self) -> Reading {
        reading(self.run.sequence(), self.waiting)
    }

    /// The sequence in the cache is the one that the next frame goes on with.
    pub open spec fn goes_on(self) -> bool {
        self.run.cache.state is Some && self.run.own(self.run.sequence())
    }

    /// What is kept where the next frame begins.
    pub open spec fn memory_left(self) -> Seq<int> {
        if self.goes_on() {
            self.memory
        } else {
            Seq::empty()
        }
    }

    /// What waits to be read where the next frame begins.
    pub open spec fn waiting_left(self, b: int) -> Seq<Content> {
        if self.goes_on() {
            self.waiting[b]
        } else {
            Seq::empty()
        }
    }

    /// The rules of the next block.
    pub open spec fn config(self) -> DeviceGreedySelectionConfig {
        DeviceGreedySelectionConfig {
            eos_token_id: self.run.settings.eos_token_id,
            max_tokens: self.run.settings.max_tokens,
            task_loss_stop: TaskLossStop {
                requirement: self.run.settings.task_loss_requirement,
                is_first_token: self.run.frame->0.is_first_token,
            },
        }
    }

    /// The scores of the next step as the host reads them.
    pub open spec fn scores(self, decoder: Decoder) -> FrameScores {
        decoder.on_host(self.run.settings, self.memory, self.read())
    }

    /// The scores of the next step decide what is selected: for every row that takes tokens the
    /// best score counts, and some row has tokens left to fill the block.
    pub open spec fn decided(self, decoder: Decoder) -> bool {
        block_decided(
            self.run.frame->0.rows(),
            self.scores(decoder),
            self.config(),
            self.run.settings.vocab as nat,
            self.run.settings.num_multi_token_pred as nat,
            0,
        )
    }
}

impl DeviceStage {
    /// What the device selects for a row in the next step.
    pub open spec fn block(self, decoder: Decoder, b: int) -> DeviceRow {
        let settings = self.stage.run.settings;
        let m = settings.num_multi_token_pred as nat;
        device_block(
            decoder.on_device(settings, self.stage.memory, self.stage.read())(0, b),
            self.stage.config(),
            self.stage.run.frame->0.count() + self.steps.len() * m,
            self.flags[b],
            self.stopped[b],
            m,
        )
    }

    /// What the device selects in the next step.
    pub open spec fn blocks(self, decoder: Decoder) -> Seq<DeviceRow> {
        Seq::new(self.stage.run.settings.batch as nat, |b: int| self.block(decoder, b))
    }
}

/// Generated tokens as contents.
pub open spec fn contents_of(tokens: Seq<i64>) -> Seq<Content> {
    Seq::new(tokens.len(), |i: int| Content::Token(tokens[i]))
}

/// The vision tokens of a frame as contents.
pub open spec fn vision_of(frame: int, n: nat) -> Seq<Content> {
    Seq::new(n, |i: int| Content::Vision { frame, token: i })
}

/// `next` is `stage` with the next frame opened: what has left the window is forgotten, and the
/// vision tokens of the frame wait behind what waited before.
pub open spec fn opens(stage: Stage, next: Stage) -> bool {
    let run = stage.run;
    let memory = stage.memory_left();
    &&& run.next() is BeginFrame
    &&& next.run.wf()
    &&& next.run.same_clip(run)
    &&& next.run.chunk == run.chunk
    &&& next.run.frame is Some
    &&& exists|before: AutoGazeStreamingCacheState, dropped: nat|
        {
            &&& run.resumes(before)
            &&& #[trigger] next.run.frame_started(before, dropped)
            &&& next.memory == memory.subrange(dropped as int, memory.len() as int)
        }
    &&& next.waiting == Seq::new(
        run.settings.batch as nat,
        |b: int|
            stage.waiting_left(b) + vision_of(run.done as int, run.settings.vision_tokens as nat),
    )
}

/// `next` is `stage` with a block taken that was selected on the host.
pub open spec fn takes_block(stage: Stage, next: Stage, decoder: Decoder) -> bool {
    let run = stage.run;
    &&& run.next() is Decode
    &&& next.run.wf()
    &&& next.run.same_clip(run)
    &&& next.run.chunk == run.chunk
    &&& next.memory == decoder.kept(stage.memory, stage.read())
    &&& exists|selection: GreedyTokenSelection|
        {
            &&& run.selects(
                selection,
                (decoder.values)(stage.memory, stage.read()),
                (decoder.weights)(stage.memory, stage.read()),
            )
            &&& #[trigger] next.run.block_entered(run, selection)
            &&& next.waiting == Seq::new(
                run.settings.batch as nat,
                |b: int| contents_of(selection.tokens@[b]@),
            )
        }
}

/// `next` is `stage` with the open frame closed.
pub open spec fn closes(stage: Stage, next: Stage) -> bool {
    &&& closes_frame(stage.run, next.run)
    &&& next.memory == stage.memory
    &&& next.waiting == stage.waiting
}

/// `next` is `d` with the next frame opened, of which the device has selected nothing.
pub open spec fn device_opens(d: DeviceStage, next: DeviceStage) -> bool {
    let settings = d.stage.run.settings;
    &&& opens(d.stage, next.stage)
    &&& next.flags == Seq::new(
        settings.batch as nat,
        |b: int| open_flags(settings.eos_token_id, settings.vocab as nat),
    )
    &&& next.stopped == Seq::new(settings.batch as nat, |b: int| false)
    &&& next.steps == Seq::<Seq<DeviceRow>>::empty()
}

/// `next` is `d` with a step selected on the device. A row with an invalid slot takes no more
/// tokens.
pub open spec fn takes_step(d: DeviceStage, next: DeviceStage, decoder: Decoder) -> bool {
    let run = d.stage.run;
    let batch = run.settings.batch as nat;
    let blocks = d.blocks(decoder);
    &&& run.next() is DecodeOnDevice
    &&& next.stage.run.wf()
    &&& next.stage.run.same_clip(run)
    &&& next.stage.run.step_entered(run)
    &&& next.stage.memory == decoder.kept(d.stage.memory, d.stage.read())
    &&& next.stage.waiting == Seq::new(batch, |b: int| contents_of(blocks[b].tokens))
    &&& next.flags == Seq::new(batch, |b: int| blocks[b].disallowed)
    &&& next.stopped == Seq::new(
        batch,
        |b: int| blocks[b].finished || blocks[b].valid.contains(false),
    )
    &&& next.steps == d.steps.push(blocks)
}

/// A chunk as it is read back holds, step after step, what the device selected.
pub open spec fn holds_steps(
    selection: GreedyTokenSelection,
    steps: Seq<Seq<DeviceRow>>,
    batch: nat,
    m: nat,
) -> bool {
    forall|b: int, i: int|
        0 <= b < batch && 0 <= i < steps.len() ==> {
            let slots = #[trigger] steps[i][b];
            &&& selection.tokens@[b]@.subrange(i * m, i * m + m) == slots.tokens
            &&& selection.valid@[b]@.subrange(i * m, i * m + m) == slots.valid
            &&& i * m + m <= selection.tokens@[b]@.len()
            &&& i * m + m <= selection.valid@[b]@.len()
        }
}

/// `next` is `d` with the chunk read back, marked by validity: what does not count is forgotten,
/// and the last step that counts waits to be read.
pub open spec fn takes_chunk(d: DeviceStage, next: DeviceStage) -> bool {
    let run = d.stage.run;
    let batch = run.settings.batch as nat;
    let m = run.settings.num_multi_token_pred as nat;
    &&& run.next() is ReadBack
    &&& next.stage.run.wf()
    &&& next.stage.run.same_clip(run)
    &&& next.flags == d.flags
    &&& next.stopped == d.stopped
    &&& next.steps == Seq::<Seq<DeviceRow>>::empty()
    &&& exists|selection: GreedyTokenSelection, outcome: ChunkOutcome|
        {
            &&& selection_fits(selection, batch, run.chunk@.len() * m)
            &&& selection_marked(selection, batch)
            &&& holds_steps(selection, d.steps, batch, m)
            &&& #[trigger] next.stage.run.chunk_entered(run, selection, outcome)
            &&& next.stage.memory == d.stage.memory.take(
                d.stage.memory.len() - outcome.forgotten_slots,
            )
            &&& next.stage.waiting == Seq::new(
                batch,
                |b: int|
                    contents_of(
                        d.steps[outcome.actual_steps - 1][b].tokens.take(
                            outcome.last_new_tokens as int,
                        ),
                    ),
            )
        }
}

/// `next` is `d` with the open frame closed.
pub open spec fn device_closes(d: DeviceStage, next: DeviceStage) -> bool {
    closes(d.stage, next.stage)
}

/// Stage `i` of a host run comes of the stage before it.
pub open spec fn host_goes_on(stages: Seq<Stage>, i: int, decoder: Decoder) -> bool {
    let (stage, next) = (stages[i - 1], stages[i]);
    opens(stage, next) || takes_block(stage, next, decoder) || closes(stage, next)
}

/// Stage `i` of a device run comes of the stage before it.
pub open spec fn device_goes_on(stages: Seq<DeviceStage>, i: int, decoder: Decoder) -> bool {
    let (d, next) = (stages[i - 1], stages[i]);
    ||| device_opens(d, next)
    ||| takes_step(d, next, decoder)
    ||| takes_chunk(d, next)
    ||| device_closes(d, next)
}

/// The stages of a stream whose tokens are selected on the host, from its beginning to its end.
pub open spec fn host_stream(stages: Seq<Stage>, decoder: Decoder) -> bool {
    &&& stages.len() > 0
    &&& begins(stages[0].run)
    &&& forall|i: int| 0 < i < stages.len() ==> #[trigger] host_goes_on(stages, i, decoder)
    &&& stages.last().run.next() is Done
}

/// The stages of a stream whose tokens are selected on the device, from its beginning to its end.
pub open spec fn device_stream(stages: Seq<DeviceStage>, decoder: Decoder) -> bool {
    &&& stages.len() > 0
    &&& begins(stages[0].stage.run)
    &&& forall|i: int| 0 < i < stages.len() ==> #[trigger] device_goes_on(stages, i, decoder)
    &&& stages.last().stage.run.next() is Done
}

/// Between frames the two streams stand alike: they hold the same sequence and the same window, and
/// their decoders keep the same and have the same to read.
pub open spec fn rest_alike(host: Stage, device: Stage) -> bool {
    &&& same_stream(host.run, device.run)
    &&& host.run.frame is None
    &&& device.run.frame is None
    &&& match (host.run.cache.state, device.run.cache.state) {
        (Some(a), Some(c)) => {
            &&& same_slots(a, c)
            &&& a.vision_tokens == c.vision_tokens
            &&& a.dim == c.dim
            &&& a.max_tokens == c.max_tokens
            &&& a.cache_capacity == c.cache_capacity
            &&& a.frame_token_lengths@ == c.frame_token_lengths@
            &&& host.memory == device.memory
            &&& host.waiting == device.waiting
            &&& host.memory.len() == a.past_len
        },
        (None, None) => true,
        _ => false,
    }
}

/// The outputs hold the same tokens, padding and frame counts.
pub open spec fn same_generated(
    one: AutoGazeGenerateOutput,
    other: AutoGazeGenerateOutput,
    batch: nat,
) -> bool {
    &&& one.num_gazing_each_frame@ == other.num_gazing_each_frame@
    &&& forall|b: int|
        0 <= b < batch ==> (#[trigger] one.gazing_pos@[b])@ == other.gazing_pos@[b]@
    &&& forall|b: int|
        0 <= b < batch ==> (#[trigger] one.if_padded_gazing@[b])@ == other.if_padded_gazing@[b]@
}

/// The streams have generated the same so far; the device gives marks of validity as confidences.
pub open spec fn generated_alike(host: Stage, device: Stage) -> bool {
    &&& host.run.done == device.run.done
    &&& same_generated(device.run.output, host.run.output, host.run.settings.batch as nat)
    &&& output_marked(device.run.output, host.run.settings.batch as nat)
}

/// The device knows of a row what the host knows: whether it takes tokens, and which it may not
/// take.
pub open spec fn known_alike(host: Stage, d: DeviceStage, b: int) -> bool {
    let row = host.run.frame->0.rows()[b];
    &&& row.finished ==> d.stopped[b]
    &&& !row.finished ==> !d.stopped[b] && flags_match(
        d.flags[b],
        host_rules(row, host.config(), 0),
        Seq::empty(),
        host.run.settings.vocab as nat,
    )
}

/// Reading back what the device has selected gives the rows of the host, with `n` steps that count.
pub open spec fn leads_to(
    selection: GreedyTokenSelection,
    host: Stage,
    d: DeviceStage,
    n: nat,
) -> bool {
    let settings = host.run.settings;
    let (rows, counted, last) = chunk_result(
        d.stage.run.frame->0.rows(),
        selection,
        0,
        d.steps.len(),
        0,
        settings.num_multi_token_pred as nat,
        settings.max_tokens as nat,
        settings.eos_token_id,
    );
    &&& rows_same(rows, host.run.frame->0.rows())
    &&& counted == n
    &&& n > 0 ==> last == waiting(host.run.sequence().pending_query)
}

/// The decoders of the two streams keep the same of what the host has read.
pub open spec fn memory_ahead(host: Stage, d: DeviceStage) -> bool {
    let past = host.run.sequence().past_len;
    &&& host.memory.len() == past
    &&& d.stage.memory.len() == d.stage.run.sequence().past_len
    &&& past <= d.stage.run.sequence().past_len
    &&& host.memory == d.stage.memory.take(past as int)
}

/// The decoders of the two streams stand alike.
pub open spec fn stand_alike(host: Stage, d: DeviceStage) -> bool {
    &&& in_pace(host.run, d.stage.run)
    &&& host.memory == d.stage.memory
    &&& host.waiting == d.stage.waiting
}

/// The last `n` slots of the sequence are the block that the frame generated last.
pub open spec fn ends_in_block(run: GenerationRun, n: nat) -> bool {
    forall|b: int|
        0 <= b < run.settings.batch ==> (#[trigger] run.frame->0.last_generated_indices@[b])@
            == slot_range((run.sequence().active() - n) as nat, n)
}

/// Within a frame the device stream follows the host stream: of the steps that it has selected, the
/// first `n` are those that the host has taken. While the host goes on, all of them are, and the
/// decoders stand alike; where nothing is left to read back they do in any case.
pub open spec fn follows(host: Stage, d: DeviceStage, n: nat) -> bool {
    let settings = host.run.settings;
    let m = settings.num_multi_token_pred as nat;
    let (f, g) = (host.run.frame->0, d.stage.run.frame->0);
    let c = d.steps.len();
    let last = waiting(host.run.sequence().pending_query);
    let ended = frame_ends(f.rows(), host.config());
    &&& ahead(host.run, d.stage.run)
    &&& chunk_follows(d.stage.run)
    &&& d.stage.run.chunk@.len() == c
    &&& n <= c
    &&& c > 0 ==> n > 0
    &&& host.run.sequence().pending_query is Some
    &&& d.stage.run.sequence().pending_query is Some
    &&& f.is_first_token == g.is_first_token
    &&& rows_marked(g.rows())
    &&& forall|b: int| 0 <= b < settings.batch ==> (#[trigger] f.rows()[b]).coverage is None
    &&& memory_ahead(host, d)
    &&& forall|selection: GreedyTokenSelection| #[trigger]
        holds_steps(selection, d.steps, settings.batch as nat, m) ==> leads_to(
            selection,
            host,
            d,
            n,
        )
    &&& !ended ==> n == c && stand_alike(host, d) && forall|b: int|
        0 <= b < settings.batch ==> #[trigger] known_alike(host, d, b)
    &&& c == 0 ==> {
        &&& stand_alike(host, d)
        &&& rows_same(g.rows(), f.rows())
        &&& forall|b: int|
            0 <= b < settings.batch ==> (#[trigger] f.last_generated_indices@[b])@
                == g.last_generated_indices@[b]@
    }
    &&& n > 0 ==> {
        &&& f.count() == g.count() + (n - 1) * m + last
        &&& last <= m
        &&& ends_in_block(host.run, last as nat)
        &&& forall|b: int|
            0 <= b < settings.batch ==> #[trigger] host.waiting[b] == contents_of(
                d.steps[n - 1][b].tokens.take(last),
            )
        &&& host.waiting.len() == settings.batch
    }
    &&& reads_once(d.stage.run.mode) && c > 0 ==> g.count() == 0
    &&& reads_once(d.stage.run.mode) && c == 0 && !g.is_first_token ==> ended
}

/// A chunk with one more step: it changes the rows where the steps before it all count and leave
/// room, and is otherwise not counted.
proof fn lemma_chunk_grows(
    rows: Seq<RowModel>,
    selection: GreedyTokenSelection,
    k: nat,
    steps: nat,
    last: nat,
    m: nat,
    max: nat,
    eos: i64,
)
    requires
        k <= steps,
    ensures
        ({
            let (after, counted, width) = chunk_result(
                rows,
                selection,
                k,
                steps,
                last,
                m,
                max,
                eos,
            );
            let ended = rows_count(after) >= max || rows_finished(after);
            let grown = chunk_result(rows, selection, k, steps + 1, last, m, max, eos);
            &&& k <= counted <= steps
            &&& ended ==> grown == (after, counted, width)
            &&& !ended ==> counted == steps && grown == (
                rows_stepped(after, selection, steps, m, max, eos),
                steps + 1,
                step_width(after, m, max),
            )
        }),
    decreases steps - k,
{
    if k < steps && rows_count(rows) < max && !rows_finished(rows) {
        lemma_chunk_grows(
            rows_stepped(rows, selection, k, m, max, eos),
            selection,
            k + 1,
            steps,
            step_width(rows, m, max),
            m,
            max,
            eos,
        );
    } else if rows_count(rows) < max && !rows_finished(rows) {
        let stepped = rows_stepped(rows, selection, k, m, max, eos);
        assert(chunk_result(stepped, selection, k + 1, k + 1, step_width(rows, m, max), m, max, eos)
            == (stepped, k + 1, step_width(rows, m, max)));
    }
}

/// A row that takes no more tokens on the device gets end tokens.
proof fn lemma_stopped_block(
    row: RowScores,
    config: DeviceGreedySelectionConfig,
    count: nat,
    flags: Seq<bool>,
    m: nat,
)
    ensures
        device_block(row, config, count, flags, true, m).finished,
        device_block(row, config, count, flags, true, m).tokens == Seq::new(
            m,
            |i: int| config.eos_token_id,
        ),
    decreases m,
{
    if m > 0 {
        lemma_stopped_block(row, config, count, flags, (m - 1) as nat);
        let before = device_block(row, config, count, flags, true, (m - 1) as nat);
        assert(device_block(row, config, count, flags, true, m) == device_step(
            row,
            config,
            count,
            before,
            m - 1,
        ));
        assert(before.tokens.push(config.eos_token_id) =~= Seq::new(
            m,
            |i: int| config.eos_token_id,
        ));
    } else {
        assert(device_block(row, config, count, flags, true, m).tokens =~= Seq::new(
            m,
            |i: int| config.eos_token_id,
        ));
    }
}

/// Streams that stand alike are given the same to read.
proof fn lemma_read_alike(host: Stage, d: DeviceStage)
    requires
        stand_alike(host, d),
    ensures
        host.read() == d.stage.read(),
{
    let (a, c) = (host.run.sequence(), d.stage.run.sequence());
    lemma_same_slots_read(a, c, waiting(a.pending_query) as nat);
}

/// A frame that both streams open is followed from its beginning.
proof fn lemma_open_follows(host: Stage, d: DeviceStage, next_host: Stage, next: DeviceStage)
    requires
        rest_alike(host, d.stage),
        generated_alike(host, d.stage),
        host.run.settings.coverage_stop_ratio is None || !ratio_positive(
            host.run.settings.coverage_stop_ratio->0,
        ),
        opens(host, next_host),
        device_opens(d, next),
    ensures
        follows(next_host, next, 0),
        generated_alike(next_host, next.stage),
{
    let settings = host.run.settings;
    let m = settings.num_multi_token_pred as nat;
    let memory = host.memory_left();
    let (from_host, dropped_host) = choose|before: AutoGazeStreamingCacheState, dropped: nat|
        {
            &&& host.run.resumes(before)
            &&& #[trigger] next_host.run.frame_started(before, dropped)
            &&& next_host.memory == memory.subrange(dropped as int, memory.len() as int)
        };
    let device_memory = d.stage.memory_left();
    let (from_device, dropped_device) = choose|before: AutoGazeStreamingCacheState, dropped: nat|
        {
            &&& d.stage.run.resumes(before)
            &&& #[trigger] next.stage.run.frame_started(before, dropped)
            &&& next.stage.memory == device_memory.subrange(
                dropped as int,
                device_memory.len() as int,
            )
        };
    lemma_opens_in_pace(
        host.run,
        d.stage.run,
        from_host,
        from_device,
        next_host.run,
        next.stage.run,
        dropped_host,
        dropped_device,
    );
    lemma_in_pace(next_host.run, next.stage.run);
    lemma_frame_opens(host.run, next_host.run);
    lemma_frame_opens(d.stage.run, next.stage.run);
    lemma_frame_rows(next_host.run);
    lemma_frame_rows(next.stage.run);
    assert(next_host.waiting =~= next.stage.waiting);
    let (f, g) = (next_host.run.frame->0, next.stage.run.frame->0);
    let rows = opened_rows(settings);
    assert(rows_same(rows, rows));
    assert forall|b: int| 0 <= b < settings.batch implies #[trigger] known_alike(
        next_host,
        next,
        b,
    ) by {
        assert(rows[b].tokens =~= Seq::<i64>::empty());
    }
    assert(next_host.memory.len() == next_host.run.sequence().past_len);
    assert(next_host.memory == next.stage.memory);
    assert(next_host.memory =~= next.stage.memory.take(next_host.run.sequence().past_len as int));
    assert forall|b: int| 0 <= b < settings.batch implies (
    #[trigger] f.last_generated_indices@[b])@ == g.last_generated_indices@[b]@ by {
        assert(f.last_generated_indices@[b]@.len() == 0);
        assert(g.last_generated_indices@[b]@.len() == 0);
    }
}

/// The block that the device selects next is, as far as the host takes it, the block of the host.
/// Where the block is full the device then knows of the row what the host knows.
proof fn lemma_block_matches(
    host: Stage,
    d: DeviceStage,
    next: DeviceStage,
    decoder: Decoder,
    n: nat,
    b: int,
)
    requires
        decoder.shows_the_same(host.run.settings),
        host.run.settings.vocab > 0,
        host.run.wf(),
        follows(host, d, n),
        !frame_ends(host.run.frame->0.rows(), host.config()),
        host.decided(decoder),
        takes_step(d, next, decoder),
        0 <= b < host.run.settings.batch,
    ensures
        ({
            let rows = host.run.frame->0.rows();
            let scores = host.scores(decoder);
            let m = host.run.settings.num_multi_token_pred as nat;
            let w = host_width(rows, scores, host.config(), m, 0);
            let slots = d.block(decoder, b);
            let row = host_step(rows, scores, host.config(), m, 0)[b];
            &&& 0 < w <= m
            &&& slots.tokens.len() == m
            &&& slots.tokens.take(w as int) == padded(
                host_selections(rows, scores, host.config(), m, 0)(b).tokens,
                w,
                host.run.settings.eos_token_id,
            )
            &&& !rows[b].finished ==> slots == device_block(
                scores(0, b),
                step_config(host.config(), 0),
                rows[b].tokens.len(),
                d.flags[b],
                false,
                m,
            ) && flags_match(
                d.flags[b],
                host_rules(rows[b], host.config(), 0),
                Seq::empty(),
                host.run.settings.vocab as nat,
            )
            &&& row.finished ==> next.stopped[b]
            &&& w == m && !row.finished ==> !next.stopped[b] && flags_match(
                next.flags[b],
                host_rules(row, host.config(), 1),
                Seq::empty(),
                host.run.settings.vocab as nat,
            )
        }),
{
    let settings = host.run.settings;
    let rows = host.run.frame->0.rows();
    let scores = host.scores(decoder);
    let m = settings.num_multi_token_pred as nat;
    let vocab = settings.vocab as nat;
    let config = host.config();
    let w = host_width(rows, scores, config, m, 0);
    let slots = d.block(decoder, b);
    let (f, g) = (host.run.frame->0, d.stage.run.frame->0);
    let c = d.steps.len();
    lemma_frame_rows(host.run);
    lemma_frame_rows(d.stage.run);
    lemma_read_alike(host, d);
    assert(known_alike(host, d, b));
    assert(settings.frames * settings.num_vision_tokens_each_frame >= 0) by (nonlinear_arith);
    assert(f.count() == g.count() + c * m) by {
        if c == 0 {
            lemma_same_ends(g.rows(), f.rows());
            assert(0 * m == 0) by (nonlinear_arith);
        } else {
            assert((c - 1) * m + m == c * m) by (nonlinear_arith);
        }
    }
    assert(rows[b].tokens.len() == f.count());
    assert(d.stage.config() == config);
    let given = decoder.on_device(settings, d.stage.memory, d.stage.read());
    assert(same_logits(scores(0, b), given(0, b), m)) by {
        assert(scores == decoder.on_host(settings, host.memory, host.read()));
    }
    lemma_same_device_block(
        scores(0, b),
        given(0, b),
        config,
        g.count() + c * m,
        d.flags[b],
        d.stopped[b],
        m,
        m,
    );
    assert(step_config(config, 0) == config);
    assert(d.blocks(decoder)[b] == slots);
    if rows[b].finished {
        lemma_stopped_block(given(0, b), config, g.count() + c * m, d.flags[b], m);
        lemma_finished_row_is_padded(rows, scores, config, m, 0, b);
        assert(slots.tokens.take(w as int) =~= Seq::new(w, |i: int| settings.eos_token_id));
    } else {
        lemma_slots_match_host(rows, slots, d.flags[b], scores, config, vocab, m, 0, b);
    }
}

/// While the host goes on, the device stream follows it from block to block.
#[verifier::rlimit(40)]
proof fn lemma_step_follows(
    host: Stage,
    d: DeviceStage,
    next_host: Stage,
    next: DeviceStage,
    decoder: Decoder,
    n: nat,
)
    requires
        decoder.shows_the_same(host.run.settings),
        host.run.settings.vocab > 0,
        follows(host, d, n),
        generated_alike(host, d.stage),
        !frame_ends(host.run.frame->0.rows(), host.config()),
        host.decided(decoder),
        takes_block(host, next_host, decoder),
        takes_step(d, next, decoder),
    ensures
        follows(next_host, next, n + 1),
        generated_alike(next_host, next.stage),
{
    let settings = host.run.settings;
    let batch = settings.batch as nat;
    let m = settings.num_multi_token_pred as nat;
    let max = settings.max_tokens as nat;
    let eos = settings.eos_token_id;
    let rows = host.run.frame->0.rows();
    let scores = host.scores(decoder);
    let config = host.config();
    let w = host_width(rows, scores, config, m, 0);
    let (f, g) = (host.run.frame->0, d.stage.run.frame->0);
    let (f2, g2) = (next_host.run.frame->0, next.stage.run.frame->0);
    let c = d.steps.len();
    let read = host.read();
    lemma_frame_rows(host.run);
    lemma_frame_rows(d.stage.run);
    lemma_frame_rows(next_host.run);
    lemma_frame_rows(next.stage.run);
    lemma_read_alike(host, d);
    let selection = choose|selection: GreedyTokenSelection|
        {
            &&& host.run.selects(
                selection,
                (decoder.values)(host.memory, read),
                (decoder.weights)(host.memory, read),
            )
            &&& #[trigger] next_host.run.block_entered(host.run, selection)
            &&& next_host.waiting == Seq::new(batch, |b: int| contents_of(selection.tokens@[b]@))
        };
    assert(step_config(config, 0) == config);
    lemma_run_takes_host_steps(
        host.run,
        next_host.run,
        selection,
        (decoder.values)(host.memory, read),
        (decoder.weights)(host.memory, read),
        scores,
        config,
        0,
    );
    lemma_step_takes_width(rows, scores, config, m, 0);
    assert(batch > 0);
    lemma_block_matches(host, d, next, decoder, n, 0);
    lemma_steps_in_pace(host.run, d.stage.run, next_host.run, next.stage.run, selection);
    lemma_chunk_follows(d.stage.run, next.stage.run);
    assert(f2.rows() == host_step(rows, scores, config, m, 0));
    assert(g2.rows() == g.rows());
    assert(g2.count() == g.count());
    assert(f.count() == g.count() + c * m) by {
        if c == 0 {
            lemma_same_ends(g.rows(), f.rows());
            assert(0 * m == 0) by (nonlinear_arith);
        } else {
            assert((c - 1) * m + m == c * m) by (nonlinear_arith);
        }
    }
    assert(f2.count() == f.count() + w);
    // What is kept.
    let (a, a2, c2) = (
        host.run.sequence(),
        next_host.run.sequence(),
        next.stage.run.sequence(),
    );
    let slots: usize = a.prefix_attention_mask@[0].len();
    assert(slots == a.active());
    assert(a2.past_len == a.past_len + waiting(a.pending_query));
    assert(c2.past_len == a2.past_len);
    assert(next_host.memory == next.stage.memory);
    assert(next_host.memory =~= next.stage.memory.take(a2.past_len as int));
    // What waits, and what the device knows.
    assert forall|b: int| 0 <= b < batch implies #[trigger] next_host.waiting[b] == contents_of(
        next.steps[c as int][b].tokens.take(w as int),
    ) by {
        lemma_block_matches(host, d, next, decoder, n, b);
        assert(next.steps[c as int][b] == d.block(decoder, b));
        assert(selection.tokens@[b]@ == padded(
            host_selections(rows, scores, config, m, 0)(b).tokens,
            w,
            eos,
        ));
    }
    assert(!frame_ends(f2.rows(), next_host.config()) ==> w == m);
    if w == m {
        assert forall|b: int| 0 <= b < batch implies next_host.waiting[b]
            == next.stage.waiting[b] by {
            lemma_block_matches(host, d, next, decoder, n, b);
            assert(next_host.waiting[b] == contents_of(
                next.steps[c as int][b].tokens.take(w as int),
            ));
            assert(next.steps[c as int][b].tokens.take(w as int)
                =~= next.steps[c as int][b].tokens);
        }
        assert(next_host.waiting =~= next.stage.waiting);
        assert forall|b: int| 0 <= b < batch implies #[trigger] known_alike(
            next_host,
            next,
            b,
        ) by {
            lemma_block_matches(host, d, next, decoder, n, b);
        }
    }
    assert forall|b: int| 0 <= b < batch implies (#[trigger] f2.rows()[b]).coverage is None by {
        let taken = host_selections(rows, scores, config, m, 0)(b);
        assert(rows[b].coverage is None);
        lemma_keeps_no_coverage(
            rows[b],
            padded(taken.tokens, w, eos),
            padded(taken.valid, w, false),
            padded(taken.confidences, w, single(ZERO_BITS)),
            w,
        );
    }
    // What reading back would give.
    assert forall|read_back: GreedyTokenSelection| #[trigger]
        holds_steps(read_back, next.steps, batch, m) implies leads_to(
        read_back,
        next_host,
        next,
        n + 1,
    ) by {
        assert forall|b: int, i: int| 0 <= b < batch && 0 <= i < d.steps.len() implies {
            let slots = #[trigger] d.steps[i][b];
            &&& read_back.tokens@[b]@.subrange(i * m, i * m + m) == slots.tokens
            &&& read_back.valid@[b]@.subrange(i * m, i * m + m) == slots.valid
            &&& i * m + m <= read_back.tokens@[b]@.len()
            &&& i * m + m <= read_back.valid@[b]@.len()
        } by {
            assert(next.steps[i][b] == d.steps[i][b]);
        }
        assert(holds_steps(read_back, d.steps, batch, m));
        assert(leads_to(read_back, host, d, n));
        let before = chunk_result(g.rows(), read_back, 0, c, 0, m, max, eos).0;
        lemma_chunk_grows(g.rows(), read_back, 0, c, 0, m, max, eos);
        lemma_same_ends(before, rows);
        let stepped = rows_stepped(before, read_back, c, m, max, eos);
        assert forall|b: int| 0 <= b < stepped.len() implies same_but_confidence(
            #[trigger] stepped[b],
            f2.rows()[b],
        ) by {
            lemma_block_matches(host, d, next, decoder, n, b);
            assert(same_but_confidence(before[b], rows[b]));
            assert(next.steps[c as int][b] == d.block(decoder, b));
            assert(c * m >= 0) by (nonlinear_arith);
            assert(settings.frames * settings.num_vision_tokens_each_frame >= 0)
                by (nonlinear_arith);
            lemma_row_takes_slots(
                before[b],
                rows,
                read_back,
                d.block(decoder, b),
                d.flags[b],
                scores,
                config,
                settings.vocab as nat,
                m,
                0,
                (c * m) as int,
                b,
            );
        }
        assert(rows_same(stepped, f2.rows()));
    }
    assert((n + 1 - 1) * m == c * m);
}

/// Where the host has nothing left to select, what the device selects beyond it does not count.
proof fn lemma_device_follows_alone(
    host: Stage,
    d: DeviceStage,
    next: DeviceStage,
    decoder: Decoder,
    n: nat,
)
    requires
        follows(host, d, n),
        generated_alike(host, d.stage),
        frame_ends(host.run.frame->0.rows(), host.config()),
        takes_step(d, next, decoder),
    ensures
        follows(host, next, n),
        generated_alike(host, next.stage),
{
    let settings = host.run.settings;
    let batch = settings.batch as nat;
    let m = settings.num_multi_token_pred as nat;
    let max = settings.max_tokens as nat;
    let eos = settings.eos_token_id;
    let rows = host.run.frame->0.rows();
    let (f, g) = (host.run.frame->0, d.stage.run.frame->0);
    let g2 = next.stage.run.frame->0;
    let c = d.steps.len();
    lemma_frame_rows(host.run);
    lemma_frame_rows(d.stage.run);
    lemma_frame_rows(next.stage.run);
    assert(c > 0) by {
        if c == 0 {
            lemma_same_ends(g.rows(), rows);
        }
    }
    lemma_device_gets_ahead(host.run, d.stage.run, next.stage.run);
    lemma_chunk_follows(d.stage.run, next.stage.run);
    assert(g2.rows() == g.rows());
    assert(g2.count() == g.count());
    assert(!f.is_first_token);
    let (a, q, q2) = (host.run.sequence(), d.stage.run.sequence(), next.stage.run.sequence());
    assert(batch > 0);
    let slots: usize = q.prefix_attention_mask@[0].len();
    assert(slots == q.active());
    assert(q2.past_len == q.past_len + waiting(q.pending_query));
    assert(host.memory =~= next.stage.memory.take(a.past_len as int)) by {
        assert(host.memory == d.stage.memory.take(a.past_len as int));
    }
    assert forall|read_back: GreedyTokenSelection| #[trigger]
        holds_steps(read_back, next.steps, batch, m) implies leads_to(
        read_back,
        host,
        next,
        n,
    ) by {
        assert forall|b: int, i: int| 0 <= b < batch && 0 <= i < d.steps.len() implies {
            let slots = #[trigger] d.steps[i][b];
            &&& read_back.tokens@[b]@.subrange(i * m, i * m + m) == slots.tokens
            &&& read_back.valid@[b]@.subrange(i * m, i * m + m) == slots.valid
            &&& i * m + m <= read_back.tokens@[b]@.len()
            &&& i * m + m <= read_back.valid@[b]@.len()
        } by {
            assert(next.steps[i][b] == d.steps[i][b]);
        }
        assert(holds_steps(read_back, d.steps, batch, m));
        assert(leads_to(read_back, host, d, n));
        lemma_chunk_grows(g.rows(), read_back, 0, c, 0, m, max, eos);
        lemma_same_ends(chunk_result(g.rows(), read_back, 0, c, 0, m, max, eos).0, rows);
    }
    assert forall|b: int| 0 <= b < batch implies #[trigger] host.waiting[b] == contents_of(
        next.steps[n - 1][b].tokens.take(waiting(a.pending_query)),
    ) by {
        assert(next.steps[n - 1] == d.steps[n - 1]);
    }
}

/// Reading the chunk back brings the device stream to where the host stream is.
proof fn lemma_chunk_follows_host(host: Stage, d: DeviceStage, next: DeviceStage, n: nat)
    requires
        follows(host, d, n),
        generated_alike(host, d.stage),
        takes_chunk(d, next),
    ensures
        follows(host, next, 0),
        generated_alike(host, next.stage),
{
    let settings = host.run.settings;
    let batch = settings.batch as nat;
    let m = settings.num_multi_token_pred as nat;
    let max = settings.max_tokens as nat;
    let eos = settings.eos_token_id;
    let rows = host.run.frame->0.rows();
    let (f, g) = (host.run.frame->0, d.stage.run.frame->0);
    let g2 = next.stage.run.frame->0;
    let c = d.steps.len();
    let (selection, outcome) = choose|selection: GreedyTokenSelection, outcome: ChunkOutcome|
        {
            &&& selection_fits(selection, batch, d.stage.run.chunk@.len() * m)
            &&& selection_marked(selection, batch)
            &&& holds_steps(selection, d.steps, batch, m)
            &&& #[trigger] next.stage.run.chunk_entered(d.stage.run, selection, outcome)
            &&& next.stage.memory == d.stage.memory.take(
                d.stage.memory.len() - outcome.forgotten_slots,
            )
            &&& next.stage.waiting == Seq::new(
                batch,
                |b: int|
                    contents_of(
                        d.steps[outcome.actual_steps - 1][b].tokens.take(
                            outcome.last_new_tokens as int,
                        ),
                    ),
            )
        };
    lemma_frame_rows(host.run);
    lemma_frame_rows(d.stage.run);
    lemma_frame_rows(next.stage.run);
    assert(leads_to(selection, host, d, n));
    assert(n > 0);
    assert(rows_same(g2.rows(), rows));
    lemma_same_ends(g2.rows(), rows);
    assert(outcome.actual_steps == n);
    assert(outcome.last_new_tokens == waiting(host.run.sequence().pending_query));
    lemma_reads_back_in_pace(host.run, d.stage.run, next.stage.run, selection, outcome);
    lemma_in_pace(host.run, next.stage.run);
    lemma_chunk_marked(g.rows(), selection, 0, c, 0, m, max, eos);
    // What is kept.
    let (a, q, q2) = (host.run.sequence(), d.stage.run.sequence(), next.stage.run.sequence());
    let kept = d.stage.memory.len() - outcome.forgotten_slots;
    assert(c >= n);
    assert((c - n) * m >= 0) by (nonlinear_arith)
        requires
            c >= n,
    ;
    assert(outcome.forgotten_slots == (c - n) * m);
    assert(q2.past_len == a.past_len);
    assert((c - n) * m + m <= c * m) by (nonlinear_arith)
        requires
            n >= 1,
    ;
    assert(q.past_len + m == q.active());
    assert(kept == a.past_len);
    assert(next.stage.memory == host.memory);
    assert(host.memory =~= next.stage.memory.take(a.past_len as int));
    // What waits.
    assert forall|b: int| 0 <= b < batch implies host.waiting[b] == next.stage.waiting[b] by {
        assert(host.waiting[b] == contents_of(
            d.steps[n - 1][b].tokens.take(waiting(a.pending_query)),
        ));
    }
    assert(host.waiting =~= next.stage.waiting);
    assert forall|b: int| 0 <= b < batch implies (#[trigger] f.last_generated_indices@[b])@
        == g2.last_generated_indices@[b]@ by {
        lemma_last_block_ends_sequence(d.stage.run, next.stage.run, selection, outcome, b);
    }
    // What the device knows.
    let ended = frame_ends(rows, host.config());
    assert forall|b: int| !ended && 0 <= b < batch implies #[trigger] known_alike(
        host,
        next,
        b,
    ) by {
        assert(known_alike(host, d, b));
    }
    assert forall|read_back: GreedyTokenSelection| #[trigger]
        holds_steps(read_back, next.steps, batch, m) implies leads_to(
        read_back,
        host,
        next,
        0,
    ) by {}
    if reads_once(d.stage.run.mode) && !ended {
        assert((c - 1) * m + m == c * m) by (nonlinear_arith);
    }
}

/// A frame that both streams close leaves them alike.
proof fn lemma_close_follows(host: Stage, d: DeviceStage, next_host: Stage, next: DeviceStage)
    requires
        follows(host, d, 0),
        generated_alike(host, d.stage),
        closes(host, next_host),
        closes(d.stage, next.stage),
    ensures
        rest_alike(next_host, next.stage),
        generated_alike(next_host, next.stage),
{
    let settings = host.run.settings;
    let batch = settings.batch as nat;
    let (f, g) = (host.run.frame->0, d.stage.run.frame->0);
    lemma_frame_rows(host.run);
    lemma_frame_rows(d.stage.run);
    lemma_same_ends(g.rows(), f.rows());
    lemma_closes_in_pace(host.run, d.stage.run, next_host.run, next.stage.run);
    let (one, other) = (next.stage.run.output, next_host.run.output);
    let (one_before, other_before) = (d.stage.run.output, host.run.output);
    assert(one.num_gazing_each_frame@ =~= other.num_gazing_each_frame@);
    assert forall|b: int| 0 <= b < batch implies (#[trigger] one.gazing_pos@[b])@
        == other.gazing_pos@[b]@ by {
        assert(one_before.gazing_pos@[b]@ == other_before.gazing_pos@[b]@);
        assert(same_but_confidence(g.rows()[b], f.rows()[b]));
    }
    assert forall|b: int| 0 <= b < batch implies (#[trigger] one.if_padded_gazing@[b])@
        == other.if_padded_gazing@[b]@ by {
        assert(one_before.if_padded_gazing@[b]@ == other_before.if_padded_gazing@[b]@);
        assert(same_but_confidence(g.rows()[b], f.rows()[b]));
    }
    lemma_closing_keeps_marks(d.stage.run, next.stage.run);
}

/// A stage of the host stream and one of the device stream are alike: between frames they stand
/// alike, and within a frame the device follows the host.
pub open spec fn alike(host: Stage, d: DeviceStage) -> bool {
    &&& generated_alike(host, d.stage)
    &&& rest_alike(host, d.stage) || host.run.frame is Some && exists|n: nat|
        follows(host, d, n)
}

/// Whatever the device stream does next, some stage of the host stream is alike: the same one, or
/// the one after it.
proof fn lemma_stays_alike(
    stages: Seq<Stage>,
    i: int,
    d: DeviceStage,
    next: DeviceStage,
    decoder: Decoder,
) -> (j: int)
    requires
        host_stream(stages, decoder),
        0 <= i < stages.len(),
        decoder.shows_the_same(stages[i].run.settings),
        stages[i].run.settings.vocab > 0,
        stages[i].run.settings.coverage_stop_ratio is None || !ratio_positive(
            stages[i].run.settings.coverage_stop_ratio->0,
        ),
        stages[i].run.next() is Decode ==> stages[i].decided(decoder),
        alike(stages[i], d),
        ({
            ||| device_opens(d, next)
            ||| takes_step(d, next, decoder)
            ||| takes_chunk(d, next)
            ||| device_closes(d, next)
        }),
    ensures
        0 <= j < stages.len(),
        alike(stages[j], next),
        stages[j].run.settings == stages[i].run.settings,
{
    let host = stages[i];
    if host.run.frame is None {
        assert(device_opens(d, next));
        assert(host.run.next() is BeginFrame);
        assert(host_goes_on(stages, i + 1, decoder));
        lemma_open_follows(host, d, stages[i + 1], next);
        assert(follows(stages[i + 1], next, 0));
        i + 1
    } else {
        let n = choose|n: nat| follows(host, d, n);
        lemma_frame_rows(host.run);
        lemma_frame_rows(d.stage.run);
        let ended = frame_ends(host.run.frame->0.rows(), host.config());
        if takes_step(d, next, decoder) {
            if ended {
                lemma_device_follows_alone(host, d, next, decoder, n);
                i
            } else {
                assert(host.run.next() is Decode);
                assert(host_goes_on(stages, i + 1, decoder));
                lemma_step_follows(host, d, stages[i + 1], next, decoder, n);
                i + 1
            }
        } else if takes_chunk(d, next) {
            lemma_chunk_follows_host(host, d, next, n);
            i
        } else {
            assert(d.steps.len() == 0);
            lemma_same_ends(d.stage.run.frame->0.rows(), host.run.frame->0.rows());
            assert(ended);
            assert(host.run.next() is EndFrame);
            assert(host_goes_on(stages, i + 1, decoder));
            lemma_close_follows(host, d, stages[i + 1], next);
            i + 1
        }
    }
}

/// Every stage of the device stream is alike to some stage of the host stream.
proof fn lemma_some_stage_alike(
    host: Seq<Stage>,
    device: Seq<DeviceStage>,
    decoder: Decoder,
    j: int,
) -> (i: int)
    requires
        host_stream(host, decoder),
        device_stream(device, decoder),
        rest_alike(host[0], device[0].stage),
        decoder.shows_the_same(host[0].run.settings),
        host[0].run.settings.vocab > 0,
        host[0].run.settings.coverage_stop_ratio is None || !ratio_positive(
            host[0].run.settings.coverage_stop_ratio->0,
        ),
        forall|i: int|
            0 <= i < host.len() && (#[trigger] host[i]).run.next() is Decode ==> host[i].decided(
                decoder,
            ),
        0 <= j < device.len(),
    ensures
        0 <= i < host.len(),
        alike(host[i], device[j]),
        host[i].run.settings == host[0].run.settings,
    decreases j,
{
    if j == 0 {
        lemma_begin_alike(host[0], device[0].stage);
        0
    } else {
        let i = lemma_some_stage_alike(host, device, decoder, j - 1);
        assert(device_goes_on(device, j, decoder));
        lemma_stays_alike(host, i, device[j - 1], device[j], decoder)
    }
}

/// Streams that begin have generated nothing.
proof fn lemma_begin_alike(host: Stage, device: Stage)
    requires
        begins(host.run),
        begins(device.run),
        rest_alike(host, device),
    ensures
        generated_alike(host, device),
{
    let batch = host.run.settings.batch as nat;
    let (one, other) = (device.run.output, host.run.output);
    assert(one.num_gazing_each_frame@ =~= other.num_gazing_each_frame@);
    assert forall|b: int| 0 <= b < batch implies (#[trigger] one.gazing_pos@[b])@
        == other.gazing_pos@[b]@ by {
        assert(one.gazing_pos@[b]@.len() == 0);
        assert(other.gazing_pos@[b]@.len() == 0);
    }
    assert forall|b: int| 0 <= b < batch implies (#[trigger] one.if_padded_gazing@[b])@
        == other.if_padded_gazing@[b]@ by {
        assert(one.if_padded_gazing@[b]@.len() == 0);
        assert(other.if_padded_gazing@[b]@.len() == 0);
    }
    assert forall|b: int| 0 <= b < batch implies (#[trigger] one.confidences@[b])@.len()
        == one.if_padded_gazing@[b]@.len() by {
        assert(one.confidences@[b]@.len() == 0);
        assert(one.if_padded_gazing@[b]@.len() == 0);
    }
}

/// A stream generates the same wherever its tokens are selected. Run by one decoder that depends on
/// nothing but what it reads, from caches that hold the same or nothing, a stream whose tokens are
/// selected on the device gives the tokens, the frame counts and the padding of the stream whose
/// tokens are selected on the host, whatever the size of its chunks and of the last block of a
/// frame, and leaves its cache and its decoder as the other does. Its confidences are one where a
/// slot is valid and zero where it is padded. This holds where no coverage stops a frame and the
/// scores decide what is selected.
pub proof fn lemma_device_stream_matches_host_stream(
    host: Seq<Stage>,
    device: Seq<DeviceStage>,
    decoder: Decoder,
)
    requires
        host_stream(host, decoder),
        device_stream(device, decoder),
        rest_alike(host[0], device[0].stage),
        decoder.shows_the_same(host[0].run.settings),
        host[0].run.settings.vocab > 0,
        host[0].run.settings.coverage_stop_ratio is None || !ratio_positive(
            host[0].run.settings.coverage_stop_ratio->0,
        ),
        forall|i: int|
            0 <= i < host.len() && (#[trigger] host[i]).run.next() is Decode ==> host[i].decided(
                decoder,
            ),
    ensures
        ({
            let batch = host[0].run.settings.batch as nat;
            let (expected, output) = (host.last().run.output, device.last().stage.run.output);
            &&& same_generated(output, expected, batch)
            &&& output_marked(output, batch)
            &&& rest_alike(host.last(), device.last().stage)
        }),
{
    let i = lemma_some_stage_alike(host, device, decoder, device.len() - 1);
    assert(device.last().stage.run.frame is None);
    assert(host[i].run.next() is Done);
    if i < host.len() - 1 {
        assert(host_goes_on(host, i + 1, decoder));
    }
}

} // verus!
