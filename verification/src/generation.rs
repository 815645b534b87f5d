//! Generating the gaze tokens of a clip, frame by frame.
//!
//! The decoder runs elsewhere. [`GenerationRun::next_step`] says what is to be done next, and what
//! came of it is handed back: the scores of a step, a step selected on the device, or a chunk of
//! steps that was read back.
use crate::arith::{lemma_ceil_quotient, max_int};
use crate::decode::{
    block_taken, frame_entered, frame_opened, frame_settled, lemma_block_lengths, offset_fits,
    selection_fits, selection_width, slots_generated, tokens_offset, FrameDecode, RowModel,
};
use crate::device::{
    chunk_reconciled, chunk_result, chunk_taken_off, lemma_padding_is_block, requested_steps, rows_count,
    rows_finished, rows_stepped, step_width, steps_requested, AutoGazeDecodeStrategy,
    ChunkOutcome,
};
use crate::generated::{lemma_slots_prefix, slots_before, AutoGazeGenerateOutput};
use crate::ieee::{Binary32, Binary64};
use crate::layout::AutoGazeScaleTokenLayout;
use crate::positions::slot_range;
use crate::selection::{
    greedy_select_multi_tokens, lemma_row_selection, longest_selection, packed_row,
    packed_stride, padded, row_selection, GreedySelectionContext, GreedyTokenSelection, RowRules,
    RowSelection, TaskLossStop,
};
use crate::streaming::{
    frame_appended, frame_rolled_in, window_capacity, AutoGazeStreamingCache,
    inputs_for, AutoGazeStreamingCacheState, StepInputs,
};
use crate::trace::{single, ZERO_BITS};
use vstd::prelude::*;

verus! {

/// How a clip is decoded.
#[derive(Clone, Copy, Debug, PartialEq, Eq, Structural)]
pub enum GenerationMode {
    /// Every step reads the whole sequence.
    Uncached,
    /// What was read stays cached until the clip ends.
    Cached,
    /// What was read stays cached in a window that rolls on from clip to clip.
    Streaming(AutoGazeDecodeStrategy),
}

impl GenerationMode {
    /// Tokens are selected on the device.
    pub open spec fn on_device(self) -> bool {
        self matches GenerationMode::Streaming(strategy) && strategy !is HostGreedy
    }
}

/// What stays the same while a clip is decoded.
#[derive(Clone, Debug)]
pub struct GenerationSettings {
    pub batch: usize,
    pub frames: usize,
    pub vision_tokens: usize,
    /// The width of an embedding.
    pub dim: usize,
    /// The most tokens that a row takes in a frame.
    pub max_tokens: usize,
    pub num_multi_token_pred: usize,
    pub vocab: usize,
    pub eos_token_id: i64,
    /// The distance between the tokens of one frame and those of the next.
    pub num_vision_tokens_each_frame: usize,
    pub task_loss_requirement: Option<Binary32>,
    pub coverage_stop_ratio: Option<Binary64>,
    pub scale_layouts: Vec<AutoGazeScaleTokenLayout>,
}

impl GenerationSettings {
    /// A token can be offset to any frame of the clip.
    pub open spec fn token_fits(self, token: int) -> bool {
        token + self.frames * self.num_vision_tokens_each_frame <= i64::MAX
    }

    /// The tokens of the vocabulary and the end token can be offset to any frame of the clip.
    pub open spec fn tokens_fit(self) -> bool {
        &&& self.frames * self.num_vision_tokens_each_frame <= usize::MAX
        &&& self.token_fits(self.vocab as int)
        &&& self.token_fits(self.eos_token_id as int)
        &&& self.token_fits(0)
    }
}

/// What is to be done next.
#[derive(Clone, Copy, Debug, PartialEq, Eq, Structural)]
pub enum GenerationStep {
    /// Put the embeddings of this frame behind what waits to be read.
    BeginFrame { frame: usize },
    /// Run the decoder over what waits to be read, and hand back the scores of the last slot.
    Decode,
    /// Run the decoder over what waits to be read, and select on the device.
    DecodeOnDevice,
    /// Read back what was selected on the device in so many steps.
    ReadBack { steps: usize },
    /// Close the frame.
    EndFrame,
    /// Nothing is left to do.
    Done,
}

/// A clip while it is decoded.
#[derive(Clone, Debug)]
pub struct GenerationRun {
    pub mode: GenerationMode,
    pub settings: GenerationSettings,
    pub cache: AutoGazeStreamingCache,
    pub output: AutoGazeGenerateOutput,
    /// The frames that are closed.
    pub done: usize,
    /// The open frame.
    pub frame: Option<FrameDecode>,
    /// The slots of the steps that were selected on the device and are not read back.
    pub chunk: Vec<Vec<Vec<usize>>>,
}

impl GenerationRun {
    /// The sequence.
    pub open spec fn sequence(self) -> AutoGazeStreamingCacheState {
        self.cache.state->0
    }

    /// The generated slots of a frame for which the window has room.
    pub open spec fn window_tokens(self) -> nat {
        if self.mode is Uncached {
            0
        } else {
            self.settings.max_tokens as nat
        }
    }

    /// The sequence was made for this run.
    pub open spec fn own(self, state: AutoGazeStreamingCacheState) -> bool {
        &&& state.batch == self.settings.batch
        &&& state.vision_tokens == self.settings.vision_tokens
        &&& state.dim == self.settings.dim
        &&& state.max_tokens == self.window_tokens()
        &&& state.cache_capacity == window_capacity(
            self.cache.horizon_frames as nat,
            self.settings.vision_tokens as nat,
            self.window_tokens(),
        )
    }

    /// What is cached and what waits to be read make up the sequence. Where nothing is cached, the
    /// whole sequence waits, if anything does.
    pub open spec fn query_fits(self, state: AutoGazeStreamingCacheState) -> bool {
        if self.mode is Uncached {
            state.past_len == 0 && (state.pending_query matches Some(query) ==> query
                == state.active())
        } else {
            nothing_skipped(state)
        }
    }

    /// The open frame lies at the end of the sequence, behind it only the slots that are not read
    /// back; its tokens can be offset to any frame.
    pub open spec fn frame_fits(
        self,
        frame: FrameDecode,
        state: AutoGazeStreamingCacheState,
    ) -> bool {
        &&& frame.fits_open(state)
        &&& frame.batch() == self.settings.batch
        &&& frame.max_tokens == self.settings.max_tokens
        &&& frame.count() <= frame.max_tokens
        &&& self.settings.batch > 0 ==> frame.generation_prefix_len >= self.settings.vision_tokens
        &&& frame.open_slots(state) == self.chunk@.len() * self.settings.num_multi_token_pred
        &&& frame.is_first_token ==> frame.count() == 0 && (self.settings.batch > 0
            ==> !frame.all_finished())
        &&& self.chunk@.len() > 0 ==> {
            &&& !frame.is_first_token
            &&& self.chunk@.len() <= frame.max_tokens
            &&& frame.count() < frame.max_tokens
            &&& !frame.all_finished()
            &&& state.pending_query == Some(self.settings.num_multi_token_pred)
        }
        &&& forall|b: int, i: int|
            0 <= b < frame.batch() && 0 <= i < frame.frame_tokens@[b]@.len()
                ==> self.settings.token_fits(#[trigger] frame.frame_tokens@[b]@[i] as int)
        &&& self.mode is Streaming ==> state.frame_token_lengths@.len()
            < self.cache.horizon_frames
    }

    pub open spec fn wf(self) -> bool {
        &&& self.settings.tokens_fit()
        &&& self.mode.on_device() ==> self.settings.num_multi_token_pred >= 1
        &&& window_capacity(
            self.cache.horizon_frames as nat,
            self.settings.vision_tokens as nat,
            self.window_tokens(),
        ) <= usize::MAX
        &&& self.cache.wf()
        &&& self.cache.state matches Some(state) ==> self.query_fits(state)
        &&& self.done <= self.settings.frames
        &&& self.output.lined_up(self.settings.batch as nat)
        &&& self.output.num_gazing_each_frame@.len() == self.done
        &&& forall|f: int|
            0 <= f < self.done ==> #[trigger] self.output.num_gazing_each_frame@[f]
                <= self.settings.max_tokens
        &&& self.settings.batch == 0 ==> forall|f: int|
            0 <= f < self.done ==> #[trigger] self.output.num_gazing_each_frame@[f] == 0
        &&& !self.mode.on_device() ==> self.chunk@.len() == 0
        &&& forall|k: int|
            0 <= k < self.chunk@.len() ==> (#[trigger] self.chunk@[k])@.len()
                == self.settings.batch
        &&& forall|k: int, b: int|
            0 <= k < self.chunk@.len() && 0 <= b < self.settings.batch
                ==> (#[trigger] self.chunk@[k]@[b])@.len() == self.settings.num_multi_token_pred
        &&& match self.frame {
            Some(frame) => {
                &&& self.done < self.settings.frames
                &&& self.cache.state is Some
                &&& self.own(self.sequence())
                &&& self.frame_fits(frame, self.sequence())
            },
            None => self.chunk@.len() == 0,
        }
    }

    /// All but the sequence, the open frame and the steps that are not read back is as in `other`.
    pub open spec fn same_clip(self, other: GenerationRun) -> bool {
        &&& self.mode == other.mode
        &&& self.settings == other.settings
        &&& self.cache.horizon_frames == other.cache.horizon_frames
        &&& self.output == other.output
        &&& self.done == other.done
    }

    /// What is to be done next.
    pub open spec fn next(self) -> GenerationStep {
        match self.frame {
            None => if self.done < self.settings.frames {
                GenerationStep::BeginFrame { frame: self.done }
            } else {
                GenerationStep::Done
            },
            Some(frame) => {
                let reads = self.sequence().pending_query is Some;
                let goes_on = frame.count() < frame.max_tokens && !frame.all_finished();
                let steps = self.chunk@.len();
                match self.mode {
                    GenerationMode::Streaming(
                        AutoGazeDecodeStrategy::DeviceGreedy { chunk_size },
                    ) => if reads && (if steps == 0 {
                        goes_on
                    } else {
                        steps < steps_requested(
                            frame.count(),
                            frame.max_tokens as nat,
                            chunk_size as nat,
                            self.settings.num_multi_token_pred as nat,
                        )
                    }) {
                        GenerationStep::DecodeOnDevice
                    } else if steps > 0 {
                        GenerationStep::ReadBack { steps: steps as usize }
                    } else {
                        GenerationStep::EndFrame
                    },
                    GenerationMode::Streaming(
                        AutoGazeDecodeStrategy::DeviceTerminalGreedy { chunk_size },
                    ) => if self.settings.batch > 0 && reads && (steps > 0
                        || frame.is_first_token) && steps * self.settings.num_multi_token_pred < frame.max_tokens {
                        GenerationStep::DecodeOnDevice
                    } else if steps > 0 {
                        GenerationStep::ReadBack { steps: steps as usize }
                    } else {
                        GenerationStep::EndFrame
                    },
                    _ => if reads && goes_on {
                        GenerationStep::Decode
                    } else {
                        GenerationStep::EndFrame
                    },
                }
            },
        }
    }
}

/// The slots that wait to be read.
pub open spec fn waiting(query: Option<usize>) -> int {
    match query {
        Some(slots) => slots as int,
        None => 0,
    }
}

/// Everything in the sequence is cached or waits to be read.
pub open spec fn nothing_skipped(state: AutoGazeStreamingCacheState) -> bool {
    state.past_len + waiting(state.pending_query) == state.active()
}

impl GenerationRun {
    /// Begins a clip that is decoded as a whole, cached or not.
    pub fn for_clip(settings: GenerationSettings, cached: bool) -> (r: GenerationRun)
        requires
            settings.tokens_fit(),
            cached ==> window_capacity(
                settings.frames as nat,
                settings.vision_tokens as nat,
                settings.max_tokens as nat,
            ) <= usize::MAX,
            settings.vision_tokens < usize::MAX,
        ensures
            r.wf(),
            r.mode == (if cached {
                GenerationMode::Cached
            } else {
                GenerationMode::Uncached
            }),
            r.settings == settings,
            cached ==> r.cache.horizon_frames == max_int(settings.frames as int, 1),
            r.cache.state is None,
            r.frame is None,
            r.done == 0,
            nothing_generated(r.output, settings.batch as nat),
    {
        let horizon: usize = if cached {
            settings.frames
        } else {
            1
        };
        let output: AutoGazeGenerateOutput = AutoGazeGenerateOutput::empty(settings.batch);
        GenerationRun {
            mode: if cached {
                GenerationMode::Cached
            } else {
                GenerationMode::Uncached
            },
            settings,
            cache: AutoGazeStreamingCache::new(horizon),
            output,
            done: 0,
            frame: None,
            chunk: Vec::new(),
        }
    }

    /// Begins a clip that goes on where the cache left off, unless the cache was filled by clips of
    /// another shape.
    pub fn for_stream(
        settings: GenerationSettings,
        cache: AutoGazeStreamingCache,
        strategy: AutoGazeDecodeStrategy,
    ) -> (r: GenerationRun)
        requires
            settings.tokens_fit(),
            strategy !is HostGreedy ==> settings.num_multi_token_pred >= 1,
            window_capacity(
                cache.horizon_frames as nat,
                settings.vision_tokens as nat,
                settings.max_tokens as nat,
            ) <= usize::MAX,
            cache.wf(),
            cache.state matches Some(state) ==> nothing_skipped(state),
        ensures
            r.wf(),
            r.mode == GenerationMode::Streaming(strategy),
            r.settings == settings,
            r.cache.horizon_frames == cache.horizon_frames,
            r.cache.state == (if cache.state matches Some(state) && state.batch
                == settings.batch && state.max_tokens == settings.max_tokens && settings.frames
                > 0 {
                cache.state
            } else {
                None
            }),
            r.frame is None,
            r.done == 0,
            nothing_generated(r.output, settings.batch as nat),
    {
        let mut cache: AutoGazeStreamingCache = cache;
        cache.begin_clip(settings.batch, settings.max_tokens, settings.frames);
        let output: AutoGazeGenerateOutput = AutoGazeGenerateOutput::empty(settings.batch);
        GenerationRun {
            mode: GenerationMode::Streaming(strategy),
            settings,
            cache,
            output,
            done: 0,
            frame: None,
            chunk: Vec::new(),
        }
    }

    fn reads(&self) -> (r: bool)
        requires
            self.cache.state is Some,
        ensures
            r == (self.sequence().pending_query is Some),
    {
        match &self.cache.state {
            Some(state) => state.pending_query.is_some(),
            None => false,
        }
    }

    /// What is to be done next.
    pub fn next_step(&self) -> (r: GenerationStep)
        requires
            self.wf(),
        ensures
            r == self.next(),
    {
        match &self.frame {
            None => if self.done < self.settings.frames {
                GenerationStep::BeginFrame { frame: self.done }
            } else {
                GenerationStep::Done
            },
            Some(frame) => {
                let reads: bool = self.reads();
                let steps: usize = self.chunk.len();
                match self.mode {
                    GenerationMode::Streaming(
                        AutoGazeDecodeStrategy::DeviceGreedy { chunk_size },
                    ) => {
                        let more: bool = if steps == 0 {
                            frame.wants_step()
                        } else {
                            steps < requested_steps(
                                frame.taken_count(),
                                frame.max_tokens,
                                chunk_size,
                                self.settings.num_multi_token_pred,
                            )
                        };
                        if reads && more {
                            GenerationStep::DecodeOnDevice
                        } else if steps > 0 {
                            GenerationStep::ReadBack { steps }
                        } else {
                            GenerationStep::EndFrame
                        }
                    },
                    GenerationMode::Streaming(
                        AutoGazeDecodeStrategy::DeviceTerminalGreedy { chunk_size: _ },
                    ) => {
                        let total: usize = match &self.cache.state {
                            Some(state) => state.active_sequence_len(),
                            None => 0,
                        };
                        assert(steps * self.settings.num_multi_token_pred <= total);
                        if self.settings.batch > 0 && reads && (steps > 0
                            || frame.is_first_token) && steps * self.settings.num_multi_token_pred
                            < frame.max_tokens {
                            GenerationStep::DecodeOnDevice
                        } else if steps > 0 {
                            GenerationStep::ReadBack { steps }
                        } else {
                            GenerationStep::EndFrame
                        }
                    },
                    _ => if reads && frame.wants_step() {
                        GenerationStep::Decode
                    } else {
                        GenerationStep::EndFrame
                    },
                }
            },
        }
    }

    /// What the decoder needs for the next step.
    pub fn step_inputs(&self) -> (r: StepInputs)
        requires
            self.wf(),
            self.next() is Decode || self.next() is DecodeOnDevice,
        ensures
            inputs_for(r, self.sequence(), waiting(self.sequence().pending_query) as nat),
    {
        let state: &AutoGazeStreamingCacheState = self.cache.state.as_ref().unwrap();
        let query: usize = match state.pending_query {
            Some(slots) => slots,
            None => 0,
        };
        let total: usize = state.active_sequence_len();
        assert(state.past_len + query <= total);
        state.step_inputs(query)
    }

    /// Opens the next frame. Of an empty batch nothing waits to be read, so that the frame can only
    /// be closed again. Returns how many slots have left the front of the window.
    pub fn begin_frame(&mut self) -> (dropped: usize)
        requires
            old(self).wf(),
            old(self).next() is BeginFrame,
        ensures
            final(self).wf(),
            final(self).same_clip(*old(self)),
            final(self).chunk == old(self).chunk,
            final(self).frame is Some,
            exists|before: AutoGazeStreamingCacheState|
                #[trigger] old(self).resumes(before) && final(self).frame_started(
                    before,
                    dropped as nat,
                ),
    {
        let ghost given = *self;
        let tokens: usize = match self.mode {
            GenerationMode::Uncached => 0,
            _ => self.settings.max_tokens,
        };
        let kept: bool = self.cache.ensure_state(
            self.settings.batch,
            self.settings.vision_tokens,
            self.settings.dim,
            tokens,
        );
        let mut state: AutoGazeStreamingCacheState = self.cache.state.take().unwrap();
        let ghost before = state;
        proof {
            assert(given.resumes(before));
            if !kept && self.settings.batch > 0 {
                assert(before.row(0).mask.len() == 0);
            }
        }
        let dropped: usize = match self.mode {
            GenerationMode::Streaming(_) => {
                proof {
                    let horizon = self.cache.horizon_frames as int;
                    let slots = before.vision_tokens + max_int(before.max_tokens as int, 1);
                    assert(horizon * slots >= slots) by (nonlinear_arith)
                        requires
                            horizon >= 1,
                            slots >= 0,
                    ;
                }
                state.begin_streaming_frame(self.cache.horizon_frames)
            },
            _ => {
                state.begin_frame();
                0
            },
        };
        let waiting: usize = match state.pending_query {
            Some(slots) => slots,
            None => 0,
        };
        let total: usize = state.active_sequence_len();
        let query: usize = match self.mode {
            GenerationMode::Uncached => total,
            _ => if self.settings.batch == 0 {
                0
            } else {
                waiting + self.settings.vision_tokens
            },
        };
        state.pending_query = Some(query);
        let frame: FrameDecode = FrameDecode::begin(
            &state,
            self.settings.coverage_stop_ratio,
            self.settings.scale_layouts.as_slice(),
            self.settings.num_multi_token_pred,
            self.settings.max_tokens,
        );
        proof {
            if self.settings.batch > 0 {
                assert(frame.row(0).fresh());
            }
        }
        self.frame = Some(frame);
        self.cache.state = Some(state);
        dropped
    }
}

/// Frames without tokens have no slots.
proof fn lemma_no_slots(num_gazing: Seq<usize>, k: nat)
    requires
        k <= num_gazing.len(),
        forall|f: int| 0 <= f < num_gazing.len() ==> num_gazing[f] == 0,
    ensures
        slots_before(num_gazing, k) == 0,
    decreases k,
{
    if k > 0 {
        lemma_no_slots(num_gazing, (k - 1) as nat);
    }
}

/// No tokens and no frames.
pub open spec fn nothing_generated(output: AutoGazeGenerateOutput, batch: nat) -> bool {
    &&& output.rows(batch)
    &&& output.num_gazing_each_frame@.len() == 0
    &&& forall|b: int| 0 <= b < batch ==> (#[trigger] output.gazing_pos@[b])@.len() == 0
    &&& forall|b: int| 0 <= b < batch ==> (#[trigger] output.if_padded_gazing@[b])@.len() == 0
    &&& forall|b: int| 0 <= b < batch ==> (#[trigger] output.confidences@[b])@.len() == 0
}

impl GenerationRun {
    /// The sequence that the next frame goes on with: the one in the cache where it was made for
    /// this run, otherwise a fresh one.
    pub open spec fn resumes(self, before: AutoGazeStreamingCacheState) -> bool {
        &&& before.wf()
        &&& self.own(before)
        &&& if self.cache.state matches Some(state) && self.own(state) {
            self.cache.state == Some(before)
        } else {
            before.fresh()
        }
    }

    /// A frame was opened behind `before`; its vision tokens wait to be read, behind what waited
    /// before.
    pub open spec fn frame_started(
        self,
        before: AutoGazeStreamingCacheState,
        dropped: nat,
    ) -> bool {
        let moved = AutoGazeStreamingCacheState {
            pending_query: before.pending_query,
            ..self.sequence()
        };
        &&& if self.mode is Streaming {
            frame_rolled_in(moved, before, self.cache.horizon_frames as nat, dropped)
        } else {
            dropped == 0 && frame_appended(moved, before)
        }
        &&& self.sequence().pending_query == Some(
            (if self.settings.batch == 0 {
                0
            } else if self.mode is Uncached {
                self.sequence().active() as int
            } else {
                waiting(before.pending_query) + before.vision_tokens
            }) as usize,
        )
        &&& frame_opened(
            self.frame->0,
            self.sequence(),
            self.settings.coverage_stop_ratio,
            self.settings.scale_layouts@,
            self.settings.num_multi_token_pred as nat,
            self.settings.max_tokens as nat,
        )
    }
}

impl GenerationRun {
    /// The sequence after the decoder has run over what waited to be read.
    pub open spec fn read(self) -> AutoGazeStreamingCacheState {
        if self.mode is Uncached {
            self.sequence()
        } else {
            AutoGazeStreamingCacheState {
                past_len: (self.sequence().past_len + waiting(
                    self.sequence().pending_query,
                )) as usize,
                ..self.sequence()
            }
        }
    }

    /// The sequence with `query` in place of what waits to be read.
    pub open spec fn with_query(self, query: Option<usize>) -> AutoGazeStreamingCacheState {
        AutoGazeStreamingCacheState { pending_query: query, ..self.sequence() }
    }

    /// Every token can be offset to any frame.
    pub open spec fn selection_in_range(self, selection: GreedyTokenSelection) -> bool {
        forall|b: int, i: int|
            0 <= b < selection.tokens@.len() && 0 <= i < selection.tokens@[b]@.len()
                ==> self.settings.token_fits(#[trigger] selection.tokens@[b]@[i] as int)
    }

    /// The decoder has run over what waited, and the selected block was taken. The block waits to be
    /// read next; after an empty one nothing waits.
    pub open spec fn block_entered(
        self,
        before: GenerationRun,
        selection: GreedyTokenSelection,
    ) -> bool {
        &&& self.frame is Some
        &&& block_taken(
            self.frame->0,
            self.with_query(before.sequence().pending_query),
            before.frame->0,
            before.read(),
            selection,
        )
        &&& self.sequence().pending_query == if selection_width(selection) == 0 {
            None
        } else if self.mode is Uncached {
            Some(self.sequence().active() as usize)
        } else {
            Some(selection_width(selection) as usize)
        }
    }

    /// Takes the block that was selected from the scores of a step.
    fn put_selection(&mut self, selection: &GreedyTokenSelection)
        requires
            old(self).wf(),
            old(self).next() is Decode,
            old(self).frame->0.count() + selection_width(*selection)
                <= old(self).settings.max_tokens,
            selection_fits(
                *selection,
                old(self).settings.batch as nat,
                selection_width(*selection),
            ),
            old(self).selection_in_range(*selection),
        ensures
            final(self).wf(),
            final(self).same_clip(*old(self)),
            final(self).chunk == old(self).chunk,
            final(self).block_entered(*old(self), *selection),
    {
        let ghost given = *self;
        let mut state: AutoGazeStreamingCacheState = self.cache.state.take().unwrap();
        let mut frame: FrameDecode = self.frame.take().unwrap();
        let query: usize = state.pending_query.unwrap();
        let total: usize = state.active_sequence_len();
        let ghost waited = state.pending_query;
        let ghost opened = frame;
        let uncached: bool = match self.mode {
            GenerationMode::Uncached => true,
            _ => false,
        };
        if !uncached {
            state.record_forward(query);
        }
        let ghost read = state;
        proof {
            assert(read == given.read());
            assert(0 * self.settings.num_multi_token_pred == 0) by (nonlinear_arith);
            assert(frame.fits(read));
        }
        let width: usize = frame.apply_selection(&mut state, selection);
        let ghost taken = state;
        state.pending_query = if width == 0 {
            None
        } else if uncached {
            Some(state.active_sequence_len())
        } else {
            Some(width)
        };
        proof {
            lemma_tokens_stay_in_range(given, frame, opened, *selection, width as nat);
        }
        self.frame = Some(frame);
        self.cache.state = Some(state);
        proof {
            assert(self.with_query(waited) == taken);
        }
    }
}

/// The tokens of a frame can be offset where those of the block that it takes can.
proof fn lemma_tokens_stay_in_range(
    run: GenerationRun,
    after: FrameDecode,
    before: FrameDecode,
    selection: GreedyTokenSelection,
    width: nat,
)
    requires
        run.selection_in_range(selection),
        selection_fits(selection, before.batch(), width),
        after.batch() == before.batch(),
        forall|b: int, i: int|
            0 <= b < before.batch() && 0 <= i < before.frame_tokens@[b]@.len()
                ==> run.settings.token_fits(#[trigger] before.frame_tokens@[b]@[i] as int),
        width == 0 ==> after == before,
        width > 0 ==> forall|b: int|
            0 <= b < before.batch() ==> #[trigger] after.row(b) == before.row(b).taken_block(
                selection.tokens@[b]@,
                selection.valid@[b]@,
                selection.confidences@[b]@,
                width,
            ),
    ensures
        forall|b: int, i: int|
            0 <= b < after.batch() && 0 <= i < after.frame_tokens@[b]@.len()
                ==> run.settings.token_fits(#[trigger] after.frame_tokens@[b]@[i] as int),
{
    assert forall|b: int, i: int|
        0 <= b < after.batch() && 0 <= i
            < after.frame_tokens@[b]@.len() implies run.settings.token_fits(
        #[trigger] after.frame_tokens@[b]@[i] as int,
    ) by {
        if width > 0 {
            assert(after.row(b) == before.row(b).taken_block(
                selection.tokens@[b]@,
                selection.valid@[b]@,
                selection.confidences@[b]@,
                width,
            ));
            lemma_block_tokens(
                before.row(b),
                selection.tokens@[b]@,
                selection.valid@[b]@,
                selection.confidences@[b]@,
                width,
            );
            assert(selection.tokens@[b]@.len() == width);
            assert(after.frame_tokens@[b]@ == before.frame_tokens@[b]@
                + selection.tokens@[b]@.take(width as int));
            if i < before.frame_tokens@[b]@.len() {
                assert(after.frame_tokens@[b]@[i] == before.frame_tokens@[b]@[i]);
            } else {
                assert(after.frame_tokens@[b]@[i] == selection.tokens@[b]@[i
                    - before.frame_tokens@[b]@.len()]);
            }
        }
    }
}

/// A row that takes a block has the block's tokens behind its own.
pub proof fn lemma_block_tokens(
    row: RowModel,
    tokens: Seq<i64>,
    valid: Seq<bool>,
    confidences: Seq<Binary32>,
    n: nat,
)
    requires
        n <= tokens.len(),
    ensures
        row.taken_block(tokens, valid, confidences, n).tokens == row.tokens + tokens.take(
            n as int,
        ),
    decreases n,
{
    if n == 0 {
        assert(row.tokens + tokens.take(0) =~= row.tokens);
    } else {
        lemma_block_tokens(row, tokens, valid, confidences, (n - 1) as nat);
        assert(row.tokens + tokens.take(n as int) =~= (row.tokens + tokens.take(
            n - 1,
        )).push(tokens[n - 1]));
    }
}

impl GenerationRun {
    /// What is fixed for row `b` while the next block is selected.
    pub open spec fn rules(self, b: int) -> RowRules {
        let frame = self.frame->0;
        RowRules {
            prior: frame.frame_tokens@[b]@,
            finished: b < frame.finished@.len() && frame.finished@[b],
            eos: self.settings.eos_token_id,
            max_tokens: self.settings.max_tokens as nat,
            stop: TaskLossStop {
                requirement: self.settings.task_loss_requirement,
                is_first_token: frame.is_first_token,
            },
            apart: false,
        }
    }

    /// The block that the scores of a step select: for every row its best tokens, or nothing where
    /// there are too few scores.
    pub open spec fn selects(
        self,
        selection: GreedyTokenSelection,
        values: Seq<Binary32>,
        weights: Seq<Binary32>,
    ) -> bool {
        let batch = self.settings.batch as nat;
        let steps = self.settings.num_multi_token_pred as nat;
        let vocab = self.settings.vocab as nat;
        if packed_stride(steps, vocab) > usize::MAX || batch * packed_stride(steps, vocab)
            > values.len() {
            selection.empty_rows(batch)
        } else {
            selection.holds(
                |b: int|
                    row_selection(
                        packed_row(values, weights, steps, vocab, b),
                        self.rules(b),
                        steps,
                    ),
                batch,
                self.settings.eos_token_id,
            )
        }
    }

    /// Selects a block from the scores of a step and takes it. `values` holds, row by row, the
    /// scores of every proposed token and then the predicted task losses; `weights` the exponentials
    /// of the values. Returns the block.
    pub fn put_scores(&mut self, values: &[Binary32], weights: &[Binary32]) -> (r:
        GreedyTokenSelection)
        requires
            old(self).wf(),
            old(self).next() is Decode,
            weights@.len() == values@.len(),
        ensures
            old(self).selects(r, values@, weights@),
            final(self).wf(),
            final(self).same_clip(*old(self)),
            final(self).chunk == old(self).chunk,
            final(self).block_entered(*old(self), r),
    {
        let ghost given = *self;
        let selection: GreedyTokenSelection = self.select(values, weights);
        proof {
            lemma_selected(given, selection, values@, weights@);
        }
        self.put_selection(&selection);
        selection
    }

    fn select(&self, values: &[Binary32], weights: &[Binary32]) -> (r: GreedyTokenSelection)
        requires
            self.wf(),
            self.frame is Some,
            weights@.len() == values@.len(),
        ensures
            self.selects(r, values@, weights@),
    {
        let frame: &FrameDecode = self.frame.as_ref().unwrap();
        let context: GreedySelectionContext<'_> = GreedySelectionContext {
            prior_tokens: frame.frame_tokens.as_slice(),
            finished: frame.finished.as_slice(),
            eos_token_id: self.settings.eos_token_id,
            max_tokens: self.settings.max_tokens,
            task_loss_stop: TaskLossStop {
                requirement: self.settings.task_loss_requirement,
                is_first_token: frame.is_first_token,
            },
        };
        let selection: GreedyTokenSelection = greedy_select_multi_tokens(
            values,
            weights,
            self.settings.batch,
            self.settings.num_multi_token_pred,
            self.settings.vocab,
            context,
        );
        proof {
            let steps = self.settings.num_multi_token_pred as nat;
            let vocab = self.settings.vocab as nat;
            let stated = |b: int|
                row_selection(
                    packed_row(values@, weights@, steps, vocab, b),
                    context.rules(b, false),
                    steps,
                );
            let wanted = |b: int|
                row_selection(
                    packed_row(values@, weights@, steps, vocab, b),
                    self.rules(b),
                    steps,
                );
            assert forall|b: int| #[trigger] context.rules(b, false) == self.rules(b) by {
                assert(context.rules(b, false).prior =~= self.rules(b).prior);
            }
            assert(stated =~= wanted);
        }
        selection
    }
}

/// A selected block has rows of one width, and its tokens can be offset to any frame.
proof fn lemma_selected(
    run: GenerationRun,
    selection: GreedyTokenSelection,
    values: Seq<Binary32>,
    weights: Seq<Binary32>,
)
    requires
        run.wf(),
        run.frame is Some,
        run.selects(selection, values, weights),
    ensures
        selection_fits(selection, run.settings.batch as nat, selection_width(selection)),
        run.selection_in_range(selection),
        run.frame->0.count() + selection_width(selection) <= run.settings.max_tokens,
{
    let batch = run.settings.batch as nat;
    let steps = run.settings.num_multi_token_pred as nat;
    let vocab = run.settings.vocab as nat;
    let eos = run.settings.eos_token_id;
    if packed_stride(steps, vocab) > usize::MAX || batch * packed_stride(steps, vocab)
        > values.len() {
        assert(selection.empty_rows(batch));
    } else {
        let rows = |b: int|
            row_selection(packed_row(values, weights, steps, vocab, b), run.rules(b), steps);
        let len = longest_selection(rows, batch);
        assert(selection.holds(rows, batch, eos));
        assert forall|b: int| 0 <= b < batch implies {
            let row = #[trigger] rows(b);
            &&& row.tokens.len() <= len
            &&& row.valid.len() == row.tokens.len()
            &&& row.confidences.len() == row.tokens.len()
            &&& forall|i: int|
                0 <= i < row.tokens.len() ==> run.settings.token_fits(
                    #[trigger] row.tokens[i] as int,
                )
        } by {
            lemma_row_selection(
                packed_row(values, weights, steps, vocab, b),
                run.rules(b),
                steps,
            );
            lemma_longest_selection(rows, batch, b);
        }
        assert forall|b: int| 0 <= b < batch implies (#[trigger] selection.tokens@[b])@.len()
            == len by {
            assert(rows(b).tokens.len() <= len);
        }
        assert forall|b: int| 0 <= b < batch implies (#[trigger] selection.valid@[b])@.len()
            == len by {
            assert(rows(b).tokens.len() <= len);
        }
        assert forall|b: int| 0 <= b < batch implies (#[trigger] selection.confidences@[b])@.len()
            == len by {
            assert(rows(b).tokens.len() <= len);
        }
        if batch > 0 {
            assert(selection.tokens@[0]@.len() == len);
        }
        assert(run.frame->0.count() + len <= run.settings.max_tokens) by {
            if len > 0 {
                let b = lemma_longest_row(rows, batch);
                lemma_row_selection(
                    packed_row(values, weights, steps, vocab, b),
                    run.rules(b),
                    steps,
                );
                assert(run.frame->0.frame_tokens@[b]@.len() == run.frame->0.count());
            }
        }
        assert forall|b: int, i: int|
            0 <= b < selection.tokens@.len() && 0 <= i
                < selection.tokens@[b]@.len() implies run.settings.token_fits(
            #[trigger] selection.tokens@[b]@[i] as int,
        ) by {
            assert(selection.tokens@[b]@ == padded(rows(b).tokens, len, eos));
            if i < rows(b).tokens.len() {
                assert(selection.tokens@[b]@[i] == rows(b).tokens[i]);
            } else {
                assert(selection.tokens@[b]@[i] == eos);
            }
        }
    }
}

/// Some row is the longest.
proof fn lemma_longest_row(rows: spec_fn(int) -> RowSelection, k: nat) -> (b: int)
    requires
        longest_selection(rows, k) > 0,
    ensures
        0 <= b < k,
        rows(b).tokens.len() == longest_selection(rows, k),
    decreases k,
{
    if rows(k - 1).tokens.len() == longest_selection(rows, k) {
        k - 1
    } else {
        lemma_longest_row(rows, (k - 1) as nat)
    }
}

/// No row is longer than the longest.
pub(crate) proof fn lemma_longest_selection(rows: spec_fn(int) -> RowSelection, k: nat, b: int)
    requires
        0 <= b < k,
    ensures
        rows(b).tokens.len() <= longest_selection(rows, k),
    decreases k,
{
    if b < k - 1 {
        lemma_longest_selection(rows, (k - 1) as nat, b);
    }
}

impl GenerationRun {
    /// The decoder has run over what waited, and the slots of a step that was selected on the device
    /// were appended. They wait to be read next.
    pub open spec fn step_entered(self, before: GenerationRun) -> bool {
        let num_multi = self.settings.num_multi_token_pred;
        let frame = self.frame->0;
        let opened = before.frame->0;
        &&& self.frame is Some
        &&& frame.same_frame(opened)
        &&& !frame.is_first_token
        &&& frame.rows() == opened.rows()
        &&& frame.last_generated_indices == opened.last_generated_indices
        &&& slots_generated(
            self.with_query(before.sequence().pending_query),
            before.read(),
            opened.generation_tail_positions@,
            num_multi as nat,
        )
        &&& self.sequence().pending_query == Some(num_multi)
        &&& self.chunk@.len() == before.chunk@.len() + 1
        &&& self.chunk@.drop_last() == before.chunk@
        &&& forall|b: int|
            0 <= b < self.settings.batch ==> (#[trigger] self.chunk@.last()@[b])@ == slot_range(
                before.sequence().active(),
                num_multi as nat,
            )
    }

    /// Enters a step that was selected on the device.
    pub fn put_device_step(&mut self)
        requires
            old(self).wf(),
            old(self).next() is DecodeOnDevice,
        ensures
            final(self).wf(),
            final(self).same_clip(*old(self)),
            final(self).step_entered(*old(self)),
    {
        let ghost given = *self;
        let mut state: AutoGazeStreamingCacheState = self.cache.state.take().unwrap();
        let mut frame: FrameDecode = self.frame.take().unwrap();
        let query: usize = state.pending_query.unwrap();
        let total: usize = state.active_sequence_len();
        let ghost waited = state.pending_query;
        let ghost opened = frame;
        let num_multi: usize = self.settings.num_multi_token_pred;
        state.record_forward(query);
        let ghost read = state;
        proof {
            assert(read == given.read());
            assert(frame.fits_open(read));
        }
        let slots: Vec<Vec<usize>> = frame.append_device_step(&mut state, num_multi);
        let ghost appended = state;
        state.pending_query = Some(num_multi);
        let ghost steps = self.chunk@;
        self.chunk.push(slots);
        proof {
            assert((steps.len() + 1) * num_multi == steps.len() * num_multi + num_multi)
                by (nonlinear_arith);
            assert(0 * num_multi == 0) by (nonlinear_arith);
            assert(steps.len() * num_multi >= steps.len()) by (nonlinear_arith)
                requires
                    num_multi >= 1,
            ;
            assert(steps.len() + 1 <= opened.max_tokens) by {
                let room = (opened.max_tokens - opened.count()) as nat;
                assert(room * num_multi as nat >= room) by (nonlinear_arith)
                    requires
                        num_multi >= 1,
                        room >= 0,
                ;
                lemma_ceil_quotient(room, num_multi as nat);
            }
            assert(!frame.all_finished()) by {
                if frame.all_finished() {
                    assert forall|b: int| 0 <= b < opened.batch() implies #[trigger] opened.finished@[
                    b] by {
                        assert(frame.rows()[b] == opened.rows()[b]);
                        assert(frame.finished@[b]);
                    }
                }
            }
            assert(frame.count() == opened.count()) by {
                assert(frame.rows()[0] == opened.rows()[0]);
            }
            assert forall|b: int, i: int|
                0 <= b < frame.batch() && 0 <= i
                    < frame.frame_tokens@[b]@.len() implies self.settings.token_fits(
                #[trigger] frame.frame_tokens@[b]@[i] as int,
            ) by {
                assert(frame.rows()[b] == opened.rows()[b]);
                assert(frame.frame_tokens@[b]@ == opened.frame_tokens@[b]@);
                assert(self.settings.token_fits(opened.frame_tokens@[b]@[i] as int));
            }
        }
        self.frame = Some(frame);
        self.cache.state = Some(state);
        proof {
            assert(self.with_query(waited) == appended);
            assert(self.chunk@.drop_last() =~= steps);
            assert forall|k: int| 0 <= k < self.chunk@.len() implies (
            #[trigger] self.chunk@[k])@.len() == self.settings.batch by {
                if k < steps.len() {
                    assert(self.chunk@[k] == steps[k]);
                }
            }
            assert forall|k: int, b: int|
                0 <= k < self.chunk@.len() && 0 <= b < self.settings.batch implies (
            #[trigger] self.chunk@[k]@[b])@.len() == self.settings.num_multi_token_pred by {
                if k < steps.len() {
                    assert(self.chunk@[k] == steps[k]);
                    assert(steps[k]@[b]@.len() == self.settings.num_multi_token_pred);
                }
            }
        }
    }

    /// A chunk of steps was read back. The last block that counts waits to be read next.
    pub open spec fn chunk_entered(
        self,
        before: GenerationRun,
        selection: GreedyTokenSelection,
        outcome: ChunkOutcome,
    ) -> bool {
        &&& self.frame is Some
        &&& self.chunk@.len() == 0
        &&& chunk_reconciled(
            self.frame->0,
            self.with_query(before.sequence().pending_query),
            before.frame->0,
            before.sequence(),
            before.chunk@,
            selection,
            self.settings.num_multi_token_pred as nat,
            self.settings.eos_token_id,
            outcome,
        )
        &&& outcome.actual_steps > 0
        &&& self.sequence().pending_query == Some(outcome.last_new_tokens)
    }

    /// Takes what was read back of the steps that were selected on the device: `selection` holds the
    /// tokens of all steps end to end.
    pub fn put_chunk(&mut self, selection: &GreedyTokenSelection) -> (r: ChunkOutcome)
        requires
            old(self).wf(),
            old(self).next() is ReadBack,
            selection_fits(
                *selection,
                old(self).settings.batch as nat,
                old(self).chunk@.len() * old(self).settings.num_multi_token_pred as nat,
            ),
            old(self).selection_in_range(*selection),
        ensures
            final(self).wf(),
            final(self).same_clip(*old(self)),
            final(self).chunk_entered(*old(self), *selection, r),
    {
        let ghost given = *self;
        let mut state: AutoGazeStreamingCacheState = self.cache.state.take().unwrap();
        let mut frame: FrameDecode = self.frame.take().unwrap();
        let total: usize = state.active_sequence_len();
        let ghost before = state;
        let ghost opened = frame;
        assert(self.chunk@.len() * self.settings.num_multi_token_pred <= total);
        let outcome: ChunkOutcome = frame.reconcile_chunk(
            &mut state,
            self.chunk.as_slice(),
            selection,
            self.settings.num_multi_token_pred,
            self.settings.eos_token_id,
        );
        let ghost cut = state;
        state.pending_query = Some(outcome.last_new_tokens);
        self.chunk = Vec::new();
        proof {
            assert forall|b: int| 0 <= b < opened.rows().len() implies given.row_in_range(
                #[trigger] opened.rows()[b],
            ) by {
                assert forall|i: int| 0 <= i < opened.rows()[b].tokens.len() implies
                    given.settings.token_fits(#[trigger] opened.rows()[b].tokens[i] as int) by {
                    assert(given.settings.token_fits(opened.frame_tokens@[b]@[i] as int));
                }
            }
            assert(!rows_finished(opened.rows())) by {
                if rows_finished(opened.rows()) {
                    assert forall|b: int| 0 <= b < opened.batch() implies #[trigger] opened.finished@[
                    b] by {
                        assert(opened.rows()[b].finished);
                    }
                }
            }
            assert(rows_count(opened.rows()) == opened.count());
            lemma_chunk(given, opened.rows(), *selection, 0, given.chunk@.len(), 0);
            assert(rows_count(frame.rows()) == frame.count());
            assert forall|b: int, i: int|
                0 <= b < frame.batch() && 0 <= i
                    < frame.frame_tokens@[b]@.len() implies self.settings.token_fits(
                #[trigger] frame.frame_tokens@[b]@[i] as int,
            ) by {
                assert(given.row_in_range(frame.rows()[b]));
                assert(given.settings.token_fits(frame.rows()[b].tokens[i] as int));
            }
        }
        self.frame = Some(frame);
        self.cache.state = Some(state);
        proof {
            assert(self.with_query(before.pending_query) == cut);
            assert(0 * self.settings.num_multi_token_pred == 0) by (nonlinear_arith);
        }
        outcome
    }
}

impl GenerationRun {
    /// The tokens of a row can be offset to any frame.
    pub open spec fn row_in_range(self, row: RowModel) -> bool {
        forall|i: int|
            0 <= i < row.tokens.len() ==> self.settings.token_fits(
                #[trigger] row.tokens[i] as int,
            )
    }
}

/// What reading back a chunk from step `k` on keeps: the rows' tokens can be offset, and the rows
/// hold at least the last step that counts.
proof fn lemma_chunk(
    run: GenerationRun,
    rows: Seq<RowModel>,
    selection: GreedyTokenSelection,
    k: nat,
    steps: nat,
    last: nat,
)
    requires
        run.wf(),
        run.selection_in_range(selection),
        selection_fits(
            selection,
            rows.len(),
            steps * run.settings.num_multi_token_pred as nat,
        ),
        k <= steps,
        forall|b: int| 0 <= b < rows.len() ==> run.row_in_range(#[trigger] rows[b]),
    ensures
        ({
            let (after, counted, width) = chunk_result(
                rows,
                selection,
                k,
                steps,
                last,
                run.settings.num_multi_token_pred as nat,
                run.settings.max_tokens as nat,
                run.settings.eos_token_id,
            );
            &&& after.len() == rows.len()
            &&& forall|b: int| 0 <= b < after.len() ==> run.row_in_range(#[trigger] after[b])
            &&& counted >= k
            &&& counted == k ==> width == last && after == rows
            &&& counted > k ==> width <= run.settings.num_multi_token_pred && width <= rows_count(
                after,
            )
            &&& k < steps && rows_count(rows) < run.settings.max_tokens && !rows_finished(rows)
                ==> counted > k
            &&& rows_count(rows) <= run.settings.max_tokens ==> rows_count(after)
                <= run.settings.max_tokens
        }),
    decreases steps - k,
{
    let num_multi = run.settings.num_multi_token_pred as nat;
    let max_tokens = run.settings.max_tokens as nat;
    let eos = run.settings.eos_token_id;
    if k < steps && rows_count(rows) < max_tokens && !rows_finished(rows) {
        let w = step_width(rows, num_multi, max_tokens);
        let offset = (k * num_multi) as int;
        let next = rows_stepped(rows, selection, k, num_multi, max_tokens, eos);
        assert(0 <= offset && offset + num_multi <= steps * num_multi) by (nonlinear_arith)
            requires
                offset == k * num_multi,
                k + 1 <= steps,
                num_multi >= 0,
                k >= 0,
        ;
        assert forall|b: int| 0 <= b < rows.len() implies run.row_in_range(#[trigger] next[b])
            && next[b].tokens.len() == rows[b].tokens.len() + w by {
            let tokens = selection.tokens@[b]@.subrange(offset, offset + w);
            let valid = selection.valid@[b]@.subrange(offset, offset + w);
            let confidences = selection.confidences@[b]@.subrange(offset, offset + w);
            assert(selection.tokens@[b]@.len() == steps * num_multi);
            let ends = Seq::new(w, |i: int| eos);
            assert(run.row_in_range(rows[b]));
            lemma_block_tokens(rows[b], tokens, valid, confidences, w);
            lemma_padding_is_block(rows[b], eos, w, w);
            lemma_block_tokens(
                rows[b],
                ends,
                Seq::new(w, |i: int| false),
                Seq::new(w, |i: int| single(ZERO_BITS)),
                w,
            );
            assert forall|i: int| 0 <= i < next[b].tokens.len() implies run.settings.token_fits(
                #[trigger] next[b].tokens[i] as int,
            ) by {
                let own = rows[b].tokens;
                if i < own.len() {
                    assert(next[b].tokens[i] == own[i]);
                } else if rows[b].finished {
                    assert(next[b].tokens[i] == eos);
                } else {
                    assert(next[b].tokens[i] == selection.tokens@[b]@[offset + i - own.len()]);
                }
            }
        }
        lemma_chunk(run, next, selection, k + 1, steps, w);
    }
}

impl GenerationRun {
    /// The open frame was closed: its tokens stand in the output at the frame's place, and its
    /// padding is masked out of the sequence. In a stream the frame has entered the window.
    pub open spec fn frame_closed(self, before: GenerationRun) -> bool {
        let frame = before.frame->0;
        let from = before.sequence();
        let to = self.sequence();
        &&& self.mode == before.mode
        &&& self.settings == before.settings
        &&& self.cache.horizon_frames == before.cache.horizon_frames
        &&& self.done == before.done + 1
        &&& self.frame is None
        &&& self.chunk == before.chunk
        &&& self.cache.state is Some
        &&& self.own(to)
        &&& frame_entered(
            self.output,
            before.output,
            frame,
            before.done * self.settings.num_vision_tokens_each_frame,
        )
        &&& frame_settled(to, from, frame)
        &&& to.pending_query == from.pending_query
        &&& if self.mode is Streaming {
            &&& to.frame_token_lengths@ == from.frame_token_lengths@.push(
                (self.settings.vision_tokens + frame.count()) as usize,
            )
            &&& to.processed_frames == if from.processed_frames < usize::MAX {
                (from.processed_frames + 1) as usize
            } else {
                usize::MAX
            }
        } else {
            to.frame_token_lengths == from.frame_token_lengths && to.processed_frames
                == from.processed_frames
        }
    }

    /// Closes the open frame.
    pub fn end_frame(&mut self)
        requires
            old(self).wf(),
            old(self).next() is EndFrame,
        ensures
            final(self).wf(),
            final(self).frame_closed(*old(self)),
    {
        let ghost given = *self;
        let mut state: AutoGazeStreamingCacheState = self.cache.state.take().unwrap();
        let frame: FrameDecode = self.frame.take().unwrap();
        let total: usize = state.active_sequence_len();
        let stride: usize = self.settings.num_vision_tokens_each_frame;
        proof {
            assert(0 * self.settings.num_multi_token_pred == 0) by (nonlinear_arith);
            assert(0 <= self.done * stride <= self.settings.frames * stride) by (nonlinear_arith)
                requires
                    self.done <= self.settings.frames,
            ;
            assert forall|b: int, i: int|
                0 <= b < frame.batch() && 0 <= i < frame.frame_tokens@[b]@.len() implies i64::MIN
                <= #[trigger] frame.frame_tokens@[b]@[i] + self.done * stride <= i64::MAX by {
                assert(self.settings.token_fits(frame.frame_tokens@[b]@[i] as int));
            }
            assert(frame.fits(state));
            assert(offset_fits(frame, self.done * stride));
        }
        match self.mode {
            GenerationMode::Streaming(_) => {
                frame.finish_streaming(&mut state, &mut self.output, self.done, stride);
            },
            _ => {
                frame.finish(&mut state, &mut self.output, self.done, stride);
            },
        }
        proof {
            let before = given.output.num_gazing_each_frame@;
            let after = self.output.num_gazing_each_frame@;
            lemma_slots_prefix(before, after, before.len());
            assert forall|b: int| 0 <= b < self.settings.batch implies (
            #[trigger] self.output.gazing_pos@[b])@.len() == slots_before(after, after.len()) by {
                assert(given.output.gazing_pos@[b]@.len() == slots_before(before, before.len()));
                assert(frame.frame_tokens@[b]@.len() == frame.count());
            }
            assert forall|b: int| 0 <= b < self.settings.batch implies (
            #[trigger] self.output.if_padded_gazing@[b])@.len() == slots_before(
                after,
                after.len(),
            ) by {
                assert(given.output.if_padded_gazing@[b]@.len() == slots_before(
                    before,
                    before.len(),
                ));
                assert(frame.frame_padded@[b]@.len() == frame.count());
            }
            assert forall|b: int| 0 <= b < self.settings.batch implies (
            #[trigger] self.output.confidences@[b])@.len() == slots_before(after, after.len()) by {
                assert(given.output.confidences@[b]@.len() == slots_before(before, before.len()));
                assert(frame.frame_confidences@[b]@.len() == frame.count());
            }
        }
        self.done = self.done + 1;
        self.cache.state = Some(state);
    }

    /// What is kept of a stream whose decoder has run, where what it gave could not be read back: the
    /// sequence as far as the decoder has read it. Nothing waits to be read, and the open frame does
    /// not enter the window.
    pub open spec fn kept_unread(self, state: AutoGazeStreamingCacheState) -> bool {
        &&& state.pending_query is None
        &&& if self.next() is ReadBack {
            chunk_taken_off(
                AutoGazeStreamingCacheState {
                    pending_query: self.sequence().pending_query,
                    ..state
                },
                self.sequence(),
                self.settings.num_multi_token_pred as int,
                0,
            )
        } else {
            state == (AutoGazeStreamingCacheState { pending_query: None, ..self.read() })
        }
    }

    /// Gives a stream up whose decoder has run, where what it gave could not be read back. Returns
    /// the cache; a clip goes on from there as from any other.
    pub fn give_up(self) -> (r: AutoGazeStreamingCache)
        requires
            self.wf(),
            self.mode is Streaming,
            self.next() is Decode || self.next() is ReadBack,
        ensures
            r.wf(),
            r.horizon_frames == self.cache.horizon_frames,
            r.state is Some,
            self.kept_unread(r.state->0),
            nothing_skipped(r.state->0),
    {
        let horizon_frames: usize = self.cache.horizon_frames;
        let mut state: AutoGazeStreamingCacheState = self.cache.state.unwrap();
        let total: usize = state.active_sequence_len();
        let ghost before = state;
        if self.chunk.len() > 0 {
            let frame: FrameDecode = self.frame.unwrap();
            let num_multi: usize = self.settings.num_multi_token_pred;
            proof {
                let steps = self.chunk@.len();
                assert(steps * num_multi >= num_multi) by (nonlinear_arith)
                    requires
                        steps >= 1,
                        num_multi >= 0,
                ;
            }
            frame.drop_unread_step(&mut state, num_multi);
            let ghost cut = state;
            state.pending_query = None;
            proof {
                assert(cut == (AutoGazeStreamingCacheState {
                    pending_query: before.pending_query,
                    ..state
                }));
                assert(cut.active() == state.active());
                assert forall|b: int| 0 <= b < state.batch implies (
                #[trigger] state.prefix_attention_mask@[b])@.len() == state.active() by {
                    assert(cut.prefix_attention_mask@[b]@.len() == cut.active());
                }
            }
        } else {
            let query: usize = state.pending_query.unwrap();
            state.record_forward(query);
            state.pending_query = None;
        }
        AutoGazeStreamingCache { horizon_frames, state: Some(state) }
    }

    /// The cache and what was generated.
    pub fn finish(self) -> (r: (AutoGazeStreamingCache, AutoGazeGenerateOutput))
        requires
            self.wf(),
            self.next() is Done,
        ensures
            r.0 == self.cache,
            r.1 == self.output,
            r.0.wf(),
            self.mode !is Uncached && r.0.state is Some ==> nothing_skipped(r.0.state->0),
            r.1.num_gazing_each_frame@.len() == self.settings.frames,
            r.1.lined_up(self.settings.batch as nat),
            r.1.countable(self.settings.num_vision_tokens_each_frame as nat),
            self.settings.batch == 0 ==> r.1.num_gazing_each_frame@ == Seq::new(
                self.settings.frames as nat,
                |f: int| 0usize,
            ),
    {
        if self.settings.batch > 0 {
            let slots: usize = self.output.gazing_pos[0].len();
        } else {
            proof {
                lemma_no_slots(self.output.num_gazing_each_frame@, self.done as nat);
            }
        }
        (self.cache, self.output)
    }
}

/// A cached decoder reads every slot that counts exactly once and in order, wherever its tokens are
/// selected: before every step, and between frames, what is cached and what waits to be read make
/// up the sequence. Opening a frame, taking a block, entering a step of the device, reading a chunk
/// back and closing a frame keep it so.
pub proof fn lemma_slots_read_once(
    run: GenerationRun,
    next: GenerationRun,
    from: AutoGazeStreamingCacheState,
    dropped: nat,
    selection: GreedyTokenSelection,
    outcome: ChunkOutcome,
)
    requires
        run.wf(),
        run.mode == next.mode,
        run.settings == next.settings,
        run.mode !is Uncached,
    ensures
        run.cache.state is Some ==> nothing_skipped(run.sequence()),
        run.resumes(from) ==> nothing_skipped(from),
        run.resumes(from) && next.frame_started(from, dropped) ==> nothing_skipped(
            next.sequence(),
        ),
        run.next() is Decode && next.block_entered(run, selection) ==> nothing_skipped(
            next.sequence(),
        ),
        run.next() is DecodeOnDevice && next.step_entered(run) ==> nothing_skipped(
            next.sequence(),
        ),
        run.next() is ReadBack && next.chunk_entered(run, selection, outcome) ==> nothing_skipped(
            next.sequence(),
        ),
        run.next() is EndFrame && next.frame_closed(run) ==> nothing_skipped(next.sequence()),
{
    if run.resumes(from) && from.fresh() && from.batch > 0 {
        assert(from.row(0).mask.len() == 0);
    }
    if run.resumes(from) && next.frame_started(from, dropped) {
        let moved = AutoGazeStreamingCacheState {
            pending_query: from.pending_query,
            ..next.sequence()
        };
        assert(moved.active() == next.sequence().active());
        if from.batch > 0 {
            let slots: usize = next.sequence().prefix_attention_mask@[0].len();
            assert(slots == next.sequence().active());
        }
    }
    if run.next() is Decode || run.next() is DecodeOnDevice || run.next() is ReadBack {
        let slots: usize = run.sequence().prefix_attention_mask@[0].len();
        assert(slots == run.sequence().active());
        assert(run.read().active() == run.sequence().active());
        assert(next.with_query(run.sequence().pending_query).active()
            == next.sequence().active());
        if next.cache.state is Some && next.sequence().batch > 0 {
            let slots: usize = next.sequence().prefix_attention_mask@[0].len();
            assert(slots == next.sequence().active());
        }
    }
}

/// Closing a frame writes it so that it reads back: in its slots of the output stand its tokens,
/// moved to the frame's place, with their padding and confidences, and so `frame_token` gives every
/// token back that is not padding. The slots of the frames before stay as they were.
pub proof fn lemma_frame_reads_back(
    run: GenerationRun,
    next: GenerationRun,
    b: int,
    i: int,
    slot: int,
)
    requires
        run.wf(),
        run.next() is EndFrame,
        next.frame_closed(run),
        0 <= b < run.settings.batch,
        0 <= i < run.frame->0.count(),
        0 <= slot < run.output.cursor(run.done as int),
    ensures
        ({
            let per_frame = run.settings.num_vision_tokens_each_frame as nat;
            let row = run.frame->0.row(b);
            let at = next.output.cursor(run.done as int) + i;
            &&& next.output.raw_token(b, at) == Some(
                (row.tokens[i] + run.done * per_frame) as i64,
            )
            &&& next.output.slot_padded(b, at) == row.padded[i]
            &&& next.output.slot_confidence(b, at) == row.confidences[i]
            &&& next.output.frame_token(per_frame, b, run.done as int, at) == if row.padded[i]
                || row.tokens[i] < 0 {
                None
            } else {
                Some(row.tokens[i] as nat)
            }
            &&& next.output.raw_token(b, slot) == run.output.raw_token(b, slot)
            &&& next.output.slot_padded(b, slot) == run.output.slot_padded(b, slot)
            &&& next.output.slot_confidence(b, slot) == run.output.slot_confidence(b, slot)
        }),
{
    let stride = run.settings.num_vision_tokens_each_frame;
    let frame = run.frame->0;
    let before = run.output.num_gazing_each_frame@;
    let after = next.output.num_gazing_each_frame@;
    lemma_slots_prefix(before, after, before.len());
    assert(run.output.gazing_pos@[b]@.len() == slots_before(before, before.len()));
    assert(run.output.if_padded_gazing@[b]@.len() == slots_before(before, before.len()));
    assert(run.output.confidences@[b]@.len() == slots_before(before, before.len()));
    assert(frame.frame_tokens@[b]@.len() == frame.count());
    assert(frame.frame_padded@[b]@.len() == frame.count());
    assert(frame.frame_confidences@[b]@.len() == frame.count());
    assert(next.output.gazing_pos@[b]@ == run.output.gazing_pos@[b]@ + tokens_offset(
        frame.row(b).tokens,
        run.done * stride,
    ));
    assert(next.output.if_padded_gazing@[b]@ == run.output.if_padded_gazing@[b]@ + frame.row(
        b,
    ).padded);
    assert(next.output.confidences@[b]@ == run.output.confidences@[b]@ + frame.row(
        b,
    ).confidences);
    assert(0 <= run.done * stride <= run.settings.frames * stride) by (nonlinear_arith)
        requires
            run.done <= run.settings.frames,
    ;
    assert(run.settings.token_fits(frame.frame_tokens@[b]@[i] as int));
}

/// Reading back a chunk while a row is open and there is room adds to the rows.
proof fn lemma_counted_step(
    rows: Seq<RowModel>,
    selection: GreedyTokenSelection,
    k: nat,
    steps: nat,
    last: nat,
    num_multi: nat,
    max_tokens: nat,
    eos: i64,
)
    requires
        rows.len() > 0,
        num_multi >= 1,
    ensures
        ({
            let after = chunk_result(
                rows,
                selection,
                k,
                steps,
                last,
                num_multi,
                max_tokens,
                eos,
            ).0;
            &&& rows_count(after) >= rows_count(rows)
            &&& k < steps && rows_count(rows) < max_tokens && !rows_finished(rows) ==> rows_count(
                after,
            ) > rows_count(rows)
        }),
    decreases steps - k,
{
    if k < steps && rows_count(rows) < max_tokens && !rows_finished(rows) {
        let w = step_width(rows, num_multi, max_tokens);
        let next = rows_stepped(rows, selection, k, num_multi, max_tokens, eos);
        let offset = (k * num_multi) as int;
        lemma_block_lengths(
            rows[0],
            selection.tokens@[0]@.subrange(offset, offset + w),
            selection.valid@[0]@.subrange(offset, offset + w),
            selection.confidences@[0]@.subrange(offset, offset + w),
            eos,
            w,
        );
        lemma_counted_step(next, selection, k + 1, steps, w, num_multi, max_tokens, eos);
    }
}

impl GenerationRun {
    /// The frames that are not closed, whether the next one is not opened, the tokens that the open
    /// frame can still take and whether anything waits to be read, and the steps that can still be
    /// selected on the device.
    pub open spec fn left(self) -> (int, int, int, int) {
        let closed = self.settings.frames - self.done;
        match self.frame {
            None => (closed, 1, 0, 0),
            Some(frame) => (
                closed,
                0,
                frame.max_tokens - frame.count() + (if self.sequence().pending_query is Some {
                    1int
                } else {
                    0
                }),
                frame.max_tokens - self.chunk@.len(),
            ),
        }
    }

    /// Less is left than in `other`: the first of the four numbers that differs is smaller.
    pub open spec fn less_left(self, other: GenerationRun) -> bool {
        let a = self.left();
        let b = other.left();
        ||| 0 <= a.0 < b.0
        ||| a.0 == b.0 && 0 <= a.1 < b.1
        ||| a.0 == b.0 && a.1 == b.1 && 0 <= a.2 < b.2
        ||| a.0 == b.0 && a.1 == b.1 && a.2 == b.2 && 0 <= a.3 < b.3
    }
}

/// Every run ends, whatever the decoder proposes: with everything that is handed to it less is left
/// to do.
pub proof fn lemma_run_ends(
    run: GenerationRun,
    next: GenerationRun,
    from: AutoGazeStreamingCacheState,
    dropped: nat,
    selection: GreedyTokenSelection,
    outcome: ChunkOutcome,
)
    requires
        run.wf(),
        next.wf(),
    ensures
        run.next() is BeginFrame && next.same_clip(run) && next.frame is Some ==> next.less_left(
            run,
        ),
        run.next() is Decode && next.same_clip(run) && next.chunk == run.chunk
            && next.block_entered(run, selection) ==> next.less_left(run),
        run.next() is DecodeOnDevice && next.same_clip(run) && next.step_entered(run)
            ==> next.less_left(run),
        run.next() is ReadBack && next.same_clip(run) && next.chunk_entered(
            run,
            selection,
            outcome,
        ) ==> next.less_left(run),
        run.next() is EndFrame && next.frame_closed(run) ==> next.less_left(run),
{
    if run.next() is DecodeOnDevice && next.same_clip(run) && next.step_entered(run) {
        assert(next.frame->0.rows()[0] == run.frame->0.rows()[0]);
    }
    if run.next() is ReadBack && next.same_clip(run) && next.chunk_entered(
        run,
        selection,
        outcome,
    ) {
        let opened = run.frame->0;
        assert(!rows_finished(opened.rows())) by {
            if rows_finished(opened.rows()) {
                assert forall|b: int| 0 <= b < opened.batch() implies #[trigger] opened.finished@[
                b] by {
                    assert(opened.rows()[b].finished);
                }
            }
        }
        assert(rows_count(opened.rows()) == opened.count());
        assert(rows_count(next.frame->0.rows()) == next.frame->0.count());
        lemma_counted_step(
            opened.rows(),
            selection,
            0,
            run.chunk@.len(),
            0,
            run.settings.num_multi_token_pred as nat,
            run.settings.max_tokens as nat,
            run.settings.eos_token_id,
        );
    }
}

} // verus!
