//! Decoding one frame: which tokens each batch row has taken, when a row is finished, and what
//! that makes of the sequence.
//!
//! The decoder itself runs elsewhere. It asks [`FrameDecode::wants_step`] whether to go on, computes
//! scores for the inputs that the sequence hands out, and reports the selected tokens back.
use crate::arith::max_int;
use crate::coverage::{
    generation_coverage_trackers, observe_generation_coverage, ratio_positive, trackers_wf,
    CoverageModel, GenerationCoverageTracker,
};
use crate::generated::AutoGazeGenerateOutput;
use crate::ieee::{Binary32, Binary64};
use crate::layout::AutoGazeScaleTokenLayout;
use crate::positions::{
    append_row_slots, borrowed_position, generation_tail_positions, row_tail, slot_range,
};
use crate::selection::GreedyTokenSelection;
use crate::streaming::{AutoGazeStreamingCacheState, SequenceRow};
use crate::trace::{single, ZERO_BITS};
use vstd::prelude::*;

verus! {

/// What one batch row has taken of a frame.
#[verifier::ext_equal]
pub struct RowModel {
    pub tokens: Seq<i64>,
    pub padded: Seq<bool>,
    pub confidences: Seq<Binary32>,
    pub finished: bool,
    pub coverage: Option<CoverageModel>,
}

impl RowModel {
    /// With one more token. An invalid token finishes the row, and so does a valid one that
    /// completes the coverage.
    pub open spec fn taken(self, token: i64, valid: bool, confidence: Binary32) -> RowModel {
        let coverage = match self.coverage {
            Some(model) => if valid {
                Some(model.after(token))
            } else {
                Some(model)
            },
            None => None,
        };
        RowModel {
            tokens: self.tokens.push(token),
            padded: self.padded.push(!valid),
            confidences: self.confidences.push(confidence),
            finished: self.finished || !valid || (coverage is Some && coverage->0.done()),
            coverage,
        }
    }

    /// With the first `n` tokens of a block.
    pub open spec fn taken_block(
        self,
        tokens: Seq<i64>,
        valid: Seq<bool>,
        confidences: Seq<Binary32>,
        n: nat,
    ) -> RowModel
        decreases n,
    {
        if n == 0 {
            self
        } else {
            self.taken_block(tokens, valid, confidences, (n - 1) as nat).taken(
                tokens[n - 1],
                valid[n - 1],
                confidences[n - 1],
            )
        }
    }

    /// Nothing taken, with the given coverage to watch.
    pub open spec fn fresh(self) -> bool {
        &&& self.tokens.len() == 0
        &&& self.padded.len() == 0
        &&& self.confidences.len() == 0
        &&& !self.finished
    }
}

impl SequenceRow {
    /// With `n` generated slots at borrowed positions.
    pub open spec fn generated(self, tails: Seq<Vec<i64>>, b: int, n: nat) -> SequenceRow {
        SequenceRow {
            mask: self.mask + Seq::new(n, |i: int| 1i64),
            positions: self.positions + Seq::new(n, |i: int| borrowed_position(tails, b, i)),
            ..self
        }
    }
}

/// The state of a frame while its tokens are decoded.
#[derive(Clone, Debug)]
pub struct FrameDecode {
    pub frame_tokens: Vec<Vec<i64>>,
    pub frame_padded: Vec<Vec<bool>>,
    pub frame_confidences: Vec<Vec<Binary32>>,
    pub finished: Vec<bool>,
    pub coverage_trackers: Option<Vec<GenerationCoverageTracker>>,
    pub is_first_token: bool,
    /// The slots of the sequence before the first generated one.
    pub generation_prefix_len: usize,
    pub generation_tail_positions: Vec<Vec<i64>>,
    /// The slots of the last block taken.
    pub last_generated_indices: Vec<Vec<usize>>,
    pub max_tokens: usize,
}

/// A frame of which nothing is decoded yet, at the end of the sequence.
pub open spec fn frame_opened(
    frame: FrameDecode,
    state: AutoGazeStreamingCacheState,
    coverage_stop_ratio: Option<Binary64>,
    scale_layouts: Seq<AutoGazeScaleTokenLayout>,
    num_multi: nat,
    max_tokens: nat,
) -> bool {
    &&& frame.fits(state)
    &&& frame.batch() == state.batch
    &&& frame.count() == 0
    &&& frame.is_first_token
    &&& frame.max_tokens == max_tokens
    &&& frame.generation_prefix_len == state.active()
    &&& forall|b: int| 0 <= b < frame.batch() ==> (#[trigger] frame.row(b)).fresh()
    &&& forall|b: int|
        0 <= b < frame.batch() ==> (#[trigger] frame.last_generated_indices@[b])@.len() == 0
    &&& forall|b: int|
        0 <= b < frame.batch() ==> (#[trigger] frame.generation_tail_positions@[b])@ == row_tail(
            state.row(b).positions,
            max_int(num_multi as int, 1) as nat,
        )
    &&& match frame.coverage_trackers {
        Some(trackers) => coverage_stop_ratio is Some && ratio_positive(coverage_stop_ratio->0)
            && forall|b: int|
            0 <= b < frame.batch() ==> (#[trigger] trackers@[b]).fresh(
                scale_layouts,
                coverage_stop_ratio->0,
            ),
        None => coverage_stop_ratio is None || !ratio_positive(coverage_stop_ratio->0),
    }
}

/// `after` is `before` with a selected block taken, and the sequence with the block's slots.
pub open spec fn block_taken(
    after: FrameDecode,
    after_state: AutoGazeStreamingCacheState,
    before: FrameDecode,
    before_state: AutoGazeStreamingCacheState,
    selection: GreedyTokenSelection,
) -> bool {
    let width = selection_width(selection);
    &&& after.fits(after_state)
    &&& width == 0 ==> after == before && after_state == before_state
    &&& width > 0 ==> {
        &&& after.same_frame(before)
        &&& !after.is_first_token
        &&& after.count() == before.count() + width
        &&& slots_generated(after_state, before_state, before.generation_tail_positions@, width)
        &&& forall|b: int|
            0 <= b < before.batch() ==> #[trigger] after.row(b) == before.row(b).taken_block(
                selection.tokens@[b]@,
                selection.valid@[b]@,
                selection.confidences@[b]@,
                width,
            )
        &&& forall|b: int|
            0 <= b < before.batch() ==> (#[trigger] after.last_generated_indices@[b])@
                == slot_range(before_state.active(), width)
    }
}

impl FrameDecode {
    /// The batch rows.
    pub open spec fn batch(self) -> nat {
        self.finished@.len()
    }

    /// What row `b` has taken.
    pub open spec fn row(self, b: int) -> RowModel {
        RowModel {
            tokens: self.frame_tokens@[b]@,
            padded: self.frame_padded@[b]@,
            confidences: self.frame_confidences@[b]@,
            finished: self.finished@[b],
            coverage: match self.coverage_trackers {
                Some(trackers) => Some(trackers@[b].model()),
                None => None,
            },
        }
    }

    /// All rows.
    pub open spec fn rows(self) -> Seq<RowModel> {
        Seq::new(self.batch(), |b: int| self.row(b))
    }

    /// The tokens that each row has taken.
    pub open spec fn count(self) -> nat {
        if self.batch() == 0 {
            0
        } else {
            self.frame_tokens@[0]@.len()
        }
    }

    /// One row of everything for each batch entry; all rows have taken equally many tokens.
    pub open spec fn wf(self) -> bool {
        &&& self.frame_tokens@.len() == self.batch()
        &&& self.frame_padded@.len() == self.batch()
        &&& self.frame_confidences@.len() == self.batch()
        &&& self.generation_tail_positions@.len() == self.batch()
        &&& self.last_generated_indices@.len() == self.batch()
        &&& trackers_wf(self.coverage_trackers)
        &&& self.coverage_trackers matches Some(trackers) ==> trackers@.len() == self.batch()
        &&& forall|b: int|
            0 <= b < self.batch() ==> (#[trigger] self.frame_tokens@[b])@.len() == self.count()
        &&& forall|b: int|
            0 <= b < self.batch() ==> (#[trigger] self.frame_padded@[b])@.len() == self.count()
        &&& forall|b: int|
            0 <= b < self.batch() ==> (#[trigger] self.frame_confidences@[b])@.len()
                == self.count()
        &&& forall|b: int|
            0 <= b < self.batch() ==> (#[trigger] self.generation_tail_positions@[b])@.len() > 0
    }

    /// The frame belongs to the sequence: its slots are the last ones.
    pub open spec fn fits(self, state: AutoGazeStreamingCacheState) -> bool {
        &&& self.wf()
        &&& state.wf()
        &&& state.batch == self.batch()
        &&& self.batch() > 0 ==> state.active() == self.generation_prefix_len + self.count()
    }

    /// Everything but the rows is as in `other`.
    pub open spec fn same_frame(self, other: FrameDecode) -> bool {
        &&& self.generation_prefix_len == other.generation_prefix_len
        &&& self.generation_tail_positions == other.generation_tail_positions
        &&& self.max_tokens == other.max_tokens
        &&& self.batch() == other.batch()
    }

    /// Begins the frame whose vision tokens were just appended to the sequence.
    pub fn begin(
        state: &AutoGazeStreamingCacheState,
        coverage_stop_ratio: Option<Binary64>,
        scale_layouts: &[AutoGazeScaleTokenLayout],
        num_multi_token_pred: usize,
        max_tokens: usize,
    ) -> (r: FrameDecode)
        requires
            state.wf(),
        ensures
            frame_opened(
                r,
                *state,
                coverage_stop_ratio,
                scale_layouts@,
                num_multi_token_pred as nat,
                max_tokens as nat,
            ),
    {
        let batch: usize = state.batch;
        let mut frame_tokens: Vec<Vec<i64>> = Vec::new();
        let mut frame_padded: Vec<Vec<bool>> = Vec::new();
        let mut frame_confidences: Vec<Vec<Binary32>> = Vec::new();
        let mut finished: Vec<bool> = Vec::new();
        let mut last: Vec<Vec<usize>> = Vec::new();
        while finished.len() < batch
            invariant
                finished@.len() <= batch,
                frame_tokens@.len() == finished@.len(),
                frame_padded@.len() == finished@.len(),
                frame_confidences@.len() == finished@.len(),
                last@.len() == finished@.len(),
                forall|b: int|
                    0 <= b < finished@.len() ==> (#[trigger] frame_tokens@[b])@.len() == 0,
                forall|b: int|
                    0 <= b < finished@.len() ==> (#[trigger] frame_padded@[b])@.len() == 0,
                forall|b: int|
                    0 <= b < finished@.len() ==> (#[trigger] frame_confidences@[b])@.len() == 0,
                forall|b: int| 0 <= b < finished@.len() ==> (#[trigger] last@[b])@.len() == 0,
                forall|b: int| 0 <= b < finished@.len() ==> !(#[trigger] finished@[b]),
            decreases batch - finished@.len(),
        {
            frame_tokens.push(Vec::new());
            frame_padded.push(Vec::new());
            frame_confidences.push(Vec::new());
            finished.push(false);
            last.push(Vec::new());
        }
        let coverage_trackers: Option<Vec<GenerationCoverageTracker>> =
            generation_coverage_trackers(batch, coverage_stop_ratio, scale_layouts);
        let tails: Vec<Vec<i64>> = generation_tail_positions(
            &state.prefix_position_ids,
            num_multi_token_pred,
        );
        let generation_prefix_len: usize = state.active_sequence_len();
        FrameDecode {
            frame_tokens,
            frame_padded,
            frame_confidences,
            finished,
            coverage_trackers,
            is_first_token: true,
            generation_prefix_len,
            generation_tail_positions: tails,
            last_generated_indices: last,
            max_tokens,
        }
    }

    /// Every row is finished.
    pub open spec fn all_finished(self) -> bool {
        forall|b: int| 0 <= b < self.batch() ==> #[trigger] self.finished@[b]
    }

    pub(crate) fn every_row_finished(&self) -> (r: bool)
        ensures
            r == self.all_finished(),
    {
        let mut b: usize = 0;
        while b < self.finished.len()
            invariant
                b <= self.finished@.len(),
                forall|c: int| 0 <= c < b ==> #[trigger] self.finished@[c],
            decreases self.finished@.len() - b,
        {
            if !self.finished[b] {
                assert(!self.finished@[b as int]);
                return false;
            }
            b = b + 1;
        }
        true
    }

    pub(crate) fn taken_count(&self) -> (r: usize)
        requires
            self.wf(),
        ensures
            r == self.count(),
    {
        if self.frame_tokens.len() > 0 {
            self.frame_tokens[0].len()
        } else {
            0
        }
    }

    /// Whether another block is to be decoded: some row is not finished, and there is room.
    pub fn wants_step(&self) -> (r: bool)
        requires
            self.wf(),
        ensures
            r == (self.count() < self.max_tokens && !self.all_finished()),
    {
        self.taken_count() < self.max_tokens && !self.every_row_finished()
    }

    /// Lets row `b` take a token.
    fn take_token(&mut self, b: usize, token: i64, valid: bool, confidence: Binary32)
        requires
            trackers_wf(old(self).coverage_trackers),
            old(self).coverage_trackers matches Some(trackers) ==> trackers@.len() == old(self).batch(),
            old(self).frame_tokens@.len() == old(self).batch(),
            old(self).frame_padded@.len() == old(self).batch(),
            old(self).frame_confidences@.len() == old(self).batch(),
            b < old(self).batch(),
        ensures
            trackers_wf(final(self).coverage_trackers),
            final(self).coverage_trackers matches Some(trackers) ==> trackers@.len() == old(self).batch(),
            final(self).frame_tokens@.len() == old(self).batch(),
            final(self).frame_padded@.len() == old(self).batch(),
            final(self).frame_confidences@.len() == old(self).batch(),
            final(self).same_frame(*old(self)),
            final(self).is_first_token == old(self).is_first_token,
            final(self).last_generated_indices == old(self).last_generated_indices,
            final(self).row(b as int) == old(self).row(b as int).taken(token, valid, confidence),
            forall|c: int|
                0 <= c < old(self).batch() && c != b ==> #[trigger] final(self).row(c) == old(self).row(c),
    {
        let ghost before = *self;
        self.frame_tokens[b].push(token);
        self.frame_padded[b].push(!valid);
        self.frame_confidences[b].push(confidence);
        let mut stop: bool = false;
        if valid {
            stop = observe_generation_coverage(&mut self.coverage_trackers, b, token);
        }
        if !valid || stop {
            self.finished.set(b, true);
        }
        proof {
            assert(self.row(b as int) =~= before.row(b as int).taken(token, valid, confidence));
            assert forall|c: int| 0 <= c < before.batch() && c != b implies #[trigger] self.row(c)
                == before.row(c) by {
                assert(self.row(c) =~= before.row(c));
            }
        }
    }

    /// Lets row `b` take the slots `offset..offset + n` of a selected row.
    pub(crate) fn take_row(
        &mut self,
        b: usize,
        tokens: &Vec<i64>,
        valid: &Vec<bool>,
        confidences: &Vec<Binary32>,
        offset: usize,
        n: usize,
    )
        requires
            trackers_wf(old(self).coverage_trackers),
            old(self).coverage_trackers matches Some(trackers) ==> trackers@.len() == old(self).batch(),
            old(self).frame_tokens@.len() == old(self).batch(),
            old(self).frame_padded@.len() == old(self).batch(),
            old(self).frame_confidences@.len() == old(self).batch(),
            b < old(self).batch(),
            offset + n <= tokens@.len(),
            valid@.len() == tokens@.len(),
            confidences@.len() == tokens@.len(),
        ensures
            trackers_wf(final(self).coverage_trackers),
            final(self).coverage_trackers matches Some(trackers) ==> trackers@.len() == old(self).batch(),
            final(self).frame_tokens@.len() == old(self).batch(),
            final(self).frame_padded@.len() == old(self).batch(),
            final(self).frame_confidences@.len() == old(self).batch(),
            final(self).same_frame(*old(self)),
            final(self).is_first_token == old(self).is_first_token,
            final(self).last_generated_indices == old(self).last_generated_indices,
            final(self).row(b as int) == old(self).row(b as int).taken_block(
                tokens@.subrange(offset as int, offset + n),
                valid@.subrange(offset as int, offset + n),
                confidences@.subrange(offset as int, offset + n),
                n as nat,
            ),
            forall|c: int|
                0 <= c < old(self).batch() && c != b ==> #[trigger] final(self).row(c) == old(self).row(c),
    {
        let ghost before = *self;
        let width: usize = tokens.len();
        let mut i: usize = 0;
        while i < n
            invariant
                i <= n,
                b < self.batch(),
                self.batch() == before.batch(),
                trackers_wf(self.coverage_trackers),
                self.coverage_trackers matches Some(trackers) ==> trackers@.len() == before.batch(),
                self.frame_tokens@.len() == before.batch(),
                self.frame_padded@.len() == before.batch(),
                self.frame_confidences@.len() == before.batch(),
                self.same_frame(before),
                self.is_first_token == before.is_first_token,
                self.last_generated_indices == before.last_generated_indices,
                width == tokens@.len(),
                offset + n <= width,
                valid@.len() == tokens@.len(),
                confidences@.len() == tokens@.len(),
                self.row(b as int) == before.row(b as int).taken_block(
                    tokens@.subrange(offset as int, offset + n),
                    valid@.subrange(offset as int, offset + n),
                    confidences@.subrange(offset as int, offset + n),
                    i as nat,
                ),
                forall|c: int|
                    0 <= c < before.batch() && c != b ==> #[trigger] self.row(c) == before.row(c),
            decreases n - i,
        {
            self.take_token(b, tokens[offset + i], valid[offset + i], confidences[offset + i]);
            i = i + 1;
        }
    }

    /// Lets row `b` take `n` end tokens.
    pub(crate) fn take_padding(&mut self, b: usize, eos: i64, n: usize)
        requires
            trackers_wf(old(self).coverage_trackers),
            old(self).coverage_trackers matches Some(trackers) ==> trackers@.len() == old(self).batch(),
            old(self).frame_tokens@.len() == old(self).batch(),
            old(self).frame_padded@.len() == old(self).batch(),
            old(self).frame_confidences@.len() == old(self).batch(),
            b < old(self).batch(),
        ensures
            trackers_wf(final(self).coverage_trackers),
            final(self).coverage_trackers matches Some(trackers) ==> trackers@.len() == old(self).batch(),
            final(self).frame_tokens@.len() == old(self).batch(),
            final(self).frame_padded@.len() == old(self).batch(),
            final(self).frame_confidences@.len() == old(self).batch(),
            final(self).same_frame(*old(self)),
            final(self).is_first_token == old(self).is_first_token,
            final(self).last_generated_indices == old(self).last_generated_indices,
            final(self).row(b as int) == old(self).row(b as int).padding_taken(eos, n as nat),
            forall|c: int|
                0 <= c < old(self).batch() && c != b ==> #[trigger] final(self).row(c) == old(self).row(c),
    {
        let ghost before = *self;
        let mut i: usize = 0;
        while i < n
            invariant
                i <= n,
                b < self.batch(),
                self.batch() == before.batch(),
                trackers_wf(self.coverage_trackers),
                self.coverage_trackers matches Some(trackers) ==> trackers@.len() == before.batch(),
                self.frame_tokens@.len() == before.batch(),
                self.frame_padded@.len() == before.batch(),
                self.frame_confidences@.len() == before.batch(),
                self.same_frame(before),
                self.is_first_token == before.is_first_token,
                self.last_generated_indices == before.last_generated_indices,
                self.row(b as int) == before.row(b as int).padding_taken(eos, i as nat),
                forall|c: int|
                    0 <= c < before.batch() && c != b ==> #[trigger] self.row(c) == before.row(c),
            decreases n - i,
        {
            self.take_token(b, eos, false, single(ZERO_BITS));
            i = i + 1;
        }
    }
}

impl RowModel {
    /// With `n` end tokens.
    pub open spec fn padding_taken(self, eos: i64, n: nat) -> RowModel
        decreases n,
    {
        if n == 0 {
            self
        } else {
            self.padding_taken(eos, (n - 1) as nat).taken(eos, false, single(ZERO_BITS))
        }
    }
}

pub(crate) proof fn lemma_block_lengths(
    row: RowModel,
    tokens: Seq<i64>,
    valid: Seq<bool>,
    confidences: Seq<Binary32>,
    eos: i64,
    n: nat,
)
    ensures
        row.taken_block(tokens, valid, confidences, n).tokens.len() == row.tokens.len() + n,
        row.taken_block(tokens, valid, confidences, n).padded.len() == row.padded.len() + n,
        row.taken_block(tokens, valid, confidences, n).confidences.len() == row.confidences.len()
            + n,
        row.padding_taken(eos, n).tokens.len() == row.tokens.len() + n,
        row.padding_taken(eos, n).padded.len() == row.padded.len() + n,
        row.padding_taken(eos, n).confidences.len() == row.confidences.len() + n,
    decreases n,
{
    if n > 0 {
        lemma_block_lengths(row, tokens, valid, confidences, eos, (n - 1) as nat);
    }
}

/// The width of a selected block.
pub open spec fn selection_width(selection: GreedyTokenSelection) -> nat {
    if selection.tokens@.len() == 0 {
        0
    } else {
        selection.tokens@[0]@.len()
    }
}

/// A block of equally long rows, one for each batch entry.
pub open spec fn selection_fits(selection: GreedyTokenSelection, batch: nat, width: nat) -> bool {
    &&& selection.tokens@.len() == batch
    &&& selection.valid@.len() == batch
    &&& selection.confidences@.len() == batch
    &&& forall|b: int| 0 <= b < batch ==> (#[trigger] selection.tokens@[b])@.len() == width
    &&& forall|b: int| 0 <= b < batch ==> (#[trigger] selection.valid@[b])@.len() == width
    &&& forall|b: int| 0 <= b < batch ==> (#[trigger] selection.confidences@[b])@.len() == width
}

/// What `state` is after the rows of `before` were extended by `n` generated slots each.
pub open spec fn slots_generated(
    state: AutoGazeStreamingCacheState,
    before: AutoGazeStreamingCacheState,
    tails: Seq<Vec<i64>>,
    n: nat,
) -> bool {
    &&& state.wf()
    &&& state.same_settings(before)
    &&& state.past_len == before.past_len
    &&& state.frame_token_lengths == before.frame_token_lengths
    &&& before.batch > 0 ==> state.active() == before.active() + n
    &&& forall|b: int|
        0 <= b < before.batch ==> #[trigger] state.row(b) == before.row(b).generated(tails, b, n)
}

/// Appends `n` generated slots at borrowed positions to every row, and returns their indices.
pub(crate) fn append_generated(
    state: &mut AutoGazeStreamingCacheState,
    tails: &Vec<Vec<i64>>,
    n: usize,
) -> (r: Vec<Vec<usize>>)
    requires
        old(state).wf(),
    ensures
        slots_generated(*final(state), *old(state), tails@, n as nat),
        r@.len() == old(state).batch,
        forall|b: int|
            0 <= b < r@.len() ==> (#[trigger] r@[b])@ == slot_range(
                old(state).active(),
                n as nat,
            ),
{
    let ghost before = *state;
    let mut generated: Vec<Vec<usize>> = Vec::new();
    let mut b: usize = 0;
    while b < state.batch
        invariant
            b <= state.batch,
            before.wf(),
            state.same_settings(before),
            state.past_len == before.past_len,
            state.frame_token_lengths == before.frame_token_lengths,
            state.prefix_attention_mask@.len() == state.batch,
            state.prefix_position_ids@.len() == state.batch,
            state.pending_position_indices == before.pending_position_indices,
            state.position_offsets == before.position_offsets,
            state.next_position_ids == before.next_position_ids,
            generated@.len() == b,
            forall|c: int|
                0 <= c < b ==> (#[trigger] generated@[c])@ == slot_range(
                    before.active(),
                    n as nat,
                ),
            forall|c: int|
                0 <= c < state.batch ==> #[trigger] state.row(c) == if c < b {
                    before.row(c).generated(tails@, c, n as nat)
                } else {
                    before.row(c)
                },
        decreases state.batch - b,
    {
        let ghost start = *state;
        assert(state.row(b as int) == before.row(b as int));
        assert(before.prefix_attention_mask@[b as int]@.len() == before.active());
        let indices: Vec<usize> = append_row_slots(
            &mut state.prefix_attention_mask[b],
            &mut state.prefix_position_ids[b],
            tails,
            b,
            n,
        );
        generated.push(indices);
        proof {
            assert forall|c: int| 0 <= c < state.batch implies #[trigger] state.row(c) == if c < b
                + 1 {
                before.row(c).generated(tails@, c, n as nat)
            } else {
                before.row(c)
            } by {
                if c == b {
                    assert(state.row(c) =~= before.row(c).generated(tails@, c, n as nat));
                } else {
                    assert(state.row(c) =~= start.row(c));
                }
            }
        }
        b = b + 1;
    }
    proof {
        assert forall|c: int| 0 <= c < state.batch implies (
        #[trigger] state.prefix_attention_mask@[c])@.len() == before.active() + n by {
            assert(state.row(c) == before.row(c).generated(tails@, c, n as nat));
            assert(before.prefix_attention_mask@[c]@.len() == before.active());
        }
        assert forall|c: int| 0 <= c < state.batch implies (
        #[trigger] state.prefix_position_ids@[c])@.len() == before.active() + n by {
            assert(state.row(c) == before.row(c).generated(tails@, c, n as nat));
            assert(before.prefix_position_ids@[c]@.len() == before.active());
        }
    }
    generated
}

impl FrameDecode {
    /// Takes a selected block: every row takes its tokens, and the sequence gains their slots.
    /// Returns the width of the block; one of width zero changes nothing.
    pub fn apply_selection(
        &mut self,
        state: &mut AutoGazeStreamingCacheState,
        selection: &GreedyTokenSelection,
    ) -> (r: usize)
        requires
            old(self).fits(*old(state)),
            selection_fits(*selection, old(self).batch(), selection_width(*selection)),
        ensures
            r == selection_width(*selection),
            block_taken(*final(self), *final(state), *old(self), *old(state), *selection),
    {
        let width: usize = if selection.tokens.len() > 0 {
            selection.tokens[0].len()
        } else {
            0
        };
        if width == 0 {
            return 0;
        }
        let ghost before = *self;
        let generated: Vec<Vec<usize>> = append_generated(
            state,
            &self.generation_tail_positions,
            width,
        );
        let mut b: usize = 0;
        while b < self.finished.len()
            invariant
                b <= self.batch(),
                before.wf(),
                self.same_frame(before),
                self.is_first_token == before.is_first_token,
                self.last_generated_indices == before.last_generated_indices,
                trackers_wf(self.coverage_trackers),
                self.coverage_trackers matches Some(trackers) ==> trackers@.len() == before.batch(),
                self.frame_tokens@.len() == before.batch(),
                self.frame_padded@.len() == before.batch(),
                self.frame_confidences@.len() == before.batch(),
                selection_fits(*selection, before.batch(), width as nat),
                forall|c: int|
                    0 <= c < before.batch() ==> #[trigger] self.row(c) == if c < b {
                        before.row(c).taken_block(
                            selection.tokens@[c]@,
                            selection.valid@[c]@,
                            selection.confidences@[c]@,
                            width as nat,
                        )
                    } else {
                        before.row(c)
                    },
            decreases before.batch() - b,
        {
            let ghost start = *self;
            assert(selection.tokens@[b as int]@.len() == width);
            assert(selection.valid@[b as int]@.len() == width);
            assert(selection.confidences@[b as int]@.len() == width);
            self.take_row(
                b,
                &selection.tokens[b],
                &selection.valid[b],
                &selection.confidences[b],
                0,
                width,
            );
            proof {
                assert(start.row(b as int) == before.row(b as int));
                assert(selection.tokens@[b as int]@.subrange(0, width as int)
                    =~= selection.tokens@[b as int]@);
                assert(selection.valid@[b as int]@.subrange(0, width as int)
                    =~= selection.valid@[b as int]@);
                assert(selection.confidences@[b as int]@.subrange(0, width as int)
                    =~= selection.confidences@[b as int]@);
                assert forall|c: int| 0 <= c < before.batch() && c != b implies #[trigger] self.row(
                    c,
                ) == start.row(c) by {}
            }
            b = b + 1;
        }
        let ghost taken = *self;
        self.last_generated_indices = generated;
        self.is_first_token = false;
        proof {
            assert forall|c: int| 0 <= c < before.batch() implies #[trigger] self.row(c)
                == before.row(c).taken_block(
                selection.tokens@[c]@,
                selection.valid@[c]@,
                selection.confidences@[c]@,
                width as nat,
            ) by {
                assert(self.row(c) =~= taken.row(c));
            }
            lemma_rows_wf(
                *self,
                before,
                width as nat,
                |c: int|
                    before.row(c).taken_block(
                        selection.tokens@[c]@,
                        selection.valid@[c]@,
                        selection.confidences@[c]@,
                        width as nat,
                    ),
            );
        }
        width
    }
}

/// Rows that all grew by `n` are still of one length.
pub(crate) proof fn lemma_rows_wf(
    after: FrameDecode,
    before: FrameDecode,
    n: nat,
    rows: spec_fn(int) -> RowModel,
)
    requires
        before.wf(),
        after.batch() == before.batch(),
        after.frame_tokens@.len() == before.batch(),
        after.frame_padded@.len() == before.batch(),
        after.frame_confidences@.len() == before.batch(),
        forall|c: int| 0 <= c < before.batch() ==> #[trigger] after.row(c) == rows(c),
        forall|c: int|
            0 <= c < before.batch() ==> is_block_of(#[trigger] rows(c), before.row(c), n),
    ensures
        before.batch() > 0 ==> after.count() == before.count() + n,
        forall|c: int|
            0 <= c < before.batch() ==> (#[trigger] after.frame_tokens@[c])@.len()
                == before.count() + n,
        forall|c: int|
            0 <= c < before.batch() ==> (#[trigger] after.frame_padded@[c])@.len()
                == before.count() + n,
        forall|c: int|
            0 <= c < before.batch() ==> (#[trigger] after.frame_confidences@[c])@.len()
                == before.count() + n,
{
    assert forall|c: int| 0 <= c < before.batch() implies (
    #[trigger] after.frame_tokens@[c])@.len() == before.count() + n by {
        assert(after.row(c) == rows(c));
        lemma_block_of(rows(c), before.row(c), n);
        assert(before.frame_tokens@[c]@.len() == before.count());
    }
    assert forall|c: int| 0 <= c < before.batch() implies (
    #[trigger] after.frame_padded@[c])@.len() == before.count() + n by {
        assert(after.row(c) == rows(c));
        lemma_block_of(rows(c), before.row(c), n);
        assert(before.frame_padded@[c]@.len() == before.count());
    }
    assert forall|c: int| 0 <= c < before.batch() implies (
    #[trigger] after.frame_confidences@[c])@.len() == before.count() + n by {
        assert(after.row(c) == rows(c));
        lemma_block_of(rows(c), before.row(c), n);
        assert(before.frame_confidences@[c]@.len() == before.count());
    }
}

/// `row` is `from` with a block of `n` tokens.
pub(crate) open spec fn is_block_of(row: RowModel, from: RowModel, n: nat) -> bool {
    ||| exists|tokens: Seq<i64>, valid: Seq<bool>, confidences: Seq<Binary32>|
        row == #[trigger] from.taken_block(tokens, valid, confidences, n)
    ||| exists|eos: i64| row == #[trigger] from.padding_taken(eos, n)
}

proof fn lemma_block_of(row: RowModel, from: RowModel, n: nat)
    requires
        is_block_of(row, from, n),
    ensures
        row.tokens.len() == from.tokens.len() + n,
        row.padded.len() == from.padded.len() + n,
        row.confidences.len() == from.confidences.len() + n,
{
    if exists|tokens: Seq<i64>, valid: Seq<bool>, confidences: Seq<Binary32>|
        row == #[trigger] from.taken_block(tokens, valid, confidences, n) {
        let (tokens, valid, confidences) = choose|
            tokens: Seq<i64>,
            valid: Seq<bool>,
            confidences: Seq<Binary32>,
        |
            row == #[trigger] from.taken_block(tokens, valid, confidences, n);
        lemma_block_lengths(from, tokens, valid, confidences, 0, n);
    } else {
        let eos = choose|eos: i64| row == #[trigger] from.padding_taken(eos, n);
        lemma_block_lengths(from, Seq::empty(), Seq::empty(), Seq::empty(), eos, n);
    }
}

/// A mask in which the padded slots of a frame are cleared. The frame's slots start at `from`.
pub open spec fn mask_without_padding(mask: Seq<i64>, from: int, padded: Seq<bool>) -> Seq<i64> {
    Seq::new(
        mask.len(),
        |i: int|
            if from <= i < from + padded.len() && padded[i - from] {
                0
            } else {
                mask[i]
            },
    )
}

/// The tokens of a frame, offset to the frame's place in the clip.
pub open spec fn tokens_offset(tokens: Seq<i64>, offset: int) -> Seq<i64> {
    Seq::new(tokens.len(), |i: int| (tokens[i] + offset) as i64)
}

fn clear_padding(mask: &mut Vec<i64>, from: usize, padded: &Vec<bool>)
    requires
        from + padded@.len() <= old(mask)@.len(),
    ensures
        final(mask)@ == mask_without_padding(old(mask)@, from as int, padded@),
{
    let ghost given = mask@;
    let len: usize = mask.len();
    let mut i: usize = 0;
    while i < padded.len()
        invariant
            i <= padded@.len(),
            len == given.len(),
            from + padded@.len() <= len,
            mask@ == mask_without_padding(given, from as int, padded@.take(i as int)),
        decreases padded@.len() - i,
    {
        if padded[i] {
            mask.set(from + i, 0);
        }
        i = i + 1;
        assert(mask@ =~= mask_without_padding(given, from as int, padded@.take(i as int)));
    }
    assert(padded@.take(i as int) =~= padded@);
    assert(mask@ =~= mask_without_padding(given, from as int, padded@));
}

fn extend_tokens(out: &mut Vec<i64>, tokens: &Vec<i64>, offset: i64)
    requires
        forall|i: int|
            0 <= i < tokens@.len() ==> i64::MIN <= #[trigger] tokens@[i] + offset <= i64::MAX,
    ensures
        final(out)@ == old(out)@ + tokens_offset(tokens@, offset as int),
{
    let ghost given = out@;
    let mut i: usize = 0;
    while i < tokens.len()
        invariant
            i <= tokens@.len(),
            forall|i: int|
                0 <= i < tokens@.len() ==> i64::MIN <= #[trigger] tokens@[i] + offset <= i64::MAX,
            out@ == given + tokens_offset(tokens@.take(i as int), offset as int),
        decreases tokens@.len() - i,
    {
        out.push(tokens[i] + offset);
        i = i + 1;
        assert(out@ =~= given + tokens_offset(tokens@.take(i as int), offset as int));
    }
    assert(tokens@.take(i as int) =~= tokens@);
}

fn extend_flags(out: &mut Vec<bool>, flags: &Vec<bool>)
    ensures
        final(out)@ == old(out)@ + flags@,
{
    let ghost given = out@;
    let mut i: usize = 0;
    while i < flags.len()
        invariant
            i <= flags@.len(),
            out@ == given + flags@.take(i as int),
        decreases flags@.len() - i,
    {
        out.push(flags[i]);
        i = i + 1;
        assert(out@ =~= given + flags@.take(i as int));
    }
    assert(flags@.take(i as int) =~= flags@);
}

fn extend_confidences(out: &mut Vec<Binary32>, values: &Vec<Binary32>)
    ensures
        final(out)@ == old(out)@ + values@,
{
    let ghost given = out@;
    let mut i: usize = 0;
    while i < values.len()
        invariant
            i <= values@.len(),
            out@ == given + values@.take(i as int),
        decreases values@.len() - i,
    {
        out.push(values[i]);
        i = i + 1;
        assert(out@ =~= given + values@.take(i as int));
    }
    assert(values@.take(i as int) =~= values@);
}

/// The frame's tokens can be offset to the frame's place in the clip.
pub open spec fn offset_fits(frame: FrameDecode, offset: int) -> bool {
    &&& 0 <= offset <= i64::MAX
    &&& forall|b: int, i: int|
        0 <= b < frame.batch() && 0 <= i < frame.frame_tokens@[b]@.len() ==> i64::MIN
            <= #[trigger] frame.frame_tokens@[b]@[i] + offset <= i64::MAX
}

/// `after` is `before` with a finished frame at the end.
pub open spec fn frame_entered(
    after: AutoGazeGenerateOutput,
    before: AutoGazeGenerateOutput,
    frame: FrameDecode,
    offset: int,
) -> bool {
    &&& after.rows(frame.batch())
    &&& after.num_gazing_each_frame@ == before.num_gazing_each_frame@.push(frame.count() as usize)
    &&& forall|b: int|
        0 <= b < frame.batch() ==> (#[trigger] after.gazing_pos@[b])@ == before.gazing_pos@[b]@
            + tokens_offset(frame.row(b).tokens, offset)
    &&& forall|b: int|
        0 <= b < frame.batch() ==> (#[trigger] after.if_padded_gazing@[b])@
            == before.if_padded_gazing@[b]@ + frame.row(b).padded
    &&& forall|b: int|
        0 <= b < frame.batch() ==> (#[trigger] after.confidences@[b])@ == before.confidences@[b]@
            + frame.row(b).confidences
}

/// `after` is `before` with the frame's padding masked out and its last block pending.
pub open spec fn frame_settled(
    after: AutoGazeStreamingCacheState,
    before: AutoGazeStreamingCacheState,
    frame: FrameDecode,
) -> bool {
    &&& after.wf()
    &&& after.active() == before.active()
    &&& after.past_len == before.past_len
    &&& forall|b: int|
        0 <= b < before.batch ==> #[trigger] after.row(b) == (SequenceRow {
            mask: mask_without_padding(
                before.row(b).mask,
                frame.generation_prefix_len as int,
                frame.row(b).padded,
            ),
            pending: frame.last_generated_indices@[b]@,
            ..before.row(b)
        })
}

impl FrameDecode {
    /// Ends the frame: masks its padding out of the sequence, leaves its last block pending, and
    /// enters its tokens into the output. Returns the number of slots of the frame.
    pub fn finish(
        self,
        state: &mut AutoGazeStreamingCacheState,
        output: &mut AutoGazeGenerateOutput,
        frame_idx: usize,
        num_vision_tokens_each_frame: usize,
    ) -> (r: usize)
        requires
            self.fits(*old(state)),
            old(output).rows(self.batch()),
            offset_fits(self, frame_idx * num_vision_tokens_each_frame),
            frame_idx * num_vision_tokens_each_frame <= usize::MAX,
        ensures
            r == self.count(),
            frame_settled(*final(state), *old(state), self),
            final(state).same_settings(*old(state)),
            final(state).frame_token_lengths == old(state).frame_token_lengths,
            frame_entered(
                *final(output),
                *old(output),
                self,
                frame_idx * num_vision_tokens_each_frame,
            ),
    {
        let ghost frame = self;
        let ghost before = *state;
        let ghost out0 = *output;
        let count: usize = self.taken_count();
        let offset: i64 = (frame_idx * num_vision_tokens_each_frame) as i64;
        output.num_gazing_each_frame.push(count);
        let rows: usize = self.finished.len();
        let mut b: usize = 0;
        while b < rows
            invariant
                b <= rows,
                rows == frame.batch(),
                self == frame,
                frame.fits(before),
                offset == frame_idx * num_vision_tokens_each_frame,
                offset_fits(frame, offset as int),
                out0.rows(frame.batch()),
                state.same_settings(before),
                state.past_len == before.past_len,
                state.frame_token_lengths == before.frame_token_lengths,
                state.prefix_attention_mask@.len() == rows,
                state.prefix_position_ids == before.prefix_position_ids,
                state.pending_position_indices == before.pending_position_indices,
                state.position_offsets == before.position_offsets,
                state.next_position_ids == before.next_position_ids,
                forall|c: int|
                    0 <= c < rows ==> (#[trigger] state.prefix_attention_mask@[c])@ == if c < b {
                        mask_without_padding(
                            before.row(c).mask,
                            frame.generation_prefix_len as int,
                            frame.row(c).padded,
                        )
                    } else {
                        before.row(c).mask
                    },
                output.rows(frame.batch()),
                output.num_gazing_each_frame@ == out0.num_gazing_each_frame@.push(count),
                forall|c: int|
                    0 <= c < rows ==> (#[trigger] output.gazing_pos@[c])@ == if c < b {
                        out0.gazing_pos@[c]@ + tokens_offset(frame.row(c).tokens, offset as int)
                    } else {
                        out0.gazing_pos@[c]@
                    },
                forall|c: int|
                    0 <= c < rows ==> (#[trigger] output.if_padded_gazing@[c])@ == if c < b {
                        out0.if_padded_gazing@[c]@ + frame.row(c).padded
                    } else {
                        out0.if_padded_gazing@[c]@
                    },
                forall|c: int|
                    0 <= c < rows ==> (#[trigger] output.confidences@[c])@ == if c < b {
                        out0.confidences@[c]@ + frame.row(c).confidences
                    } else {
                        out0.confidences@[c]@
                    },
            decreases rows - b,
        {
            assert(before.prefix_attention_mask@[b as int]@.len() == before.active());
            assert(state.prefix_attention_mask@[b as int]@ == before.row(b as int).mask);
            assert(frame.frame_padded@[b as int]@.len() == frame.count());
            assert forall|i: int| 0 <= i < self.frame_tokens@[b as int]@.len() implies i64::MIN
                <= #[trigger] self.frame_tokens@[b as int]@[i] + offset <= i64::MAX by {}
            clear_padding(
                &mut state.prefix_attention_mask[b],
                self.generation_prefix_len,
                &self.frame_padded[b],
            );
            extend_tokens(&mut output.gazing_pos[b], &self.frame_tokens[b], offset);
            extend_flags(&mut output.if_padded_gazing[b], &self.frame_padded[b]);
            extend_confidences(&mut output.confidences[b], &self.frame_confidences[b]);
            b = b + 1;
        }
        state.pending_position_indices = self.last_generated_indices;
        proof {
            assert forall|c: int| 0 <= c < before.batch implies #[trigger] state.row(c) == (
            SequenceRow {
                mask: mask_without_padding(
                    before.row(c).mask,
                    frame.generation_prefix_len as int,
                    frame.row(c).padded,
                ),
                pending: frame.last_generated_indices@[c]@,
                ..before.row(c)
            }) by {
                assert(state.prefix_attention_mask@[c]@ == mask_without_padding(
                    before.row(c).mask,
                    frame.generation_prefix_len as int,
                    frame.row(c).padded,
                ));
            }
            assert forall|c: int| 0 <= c < state.batch implies (
            #[trigger] state.prefix_attention_mask@[c])@.len() == before.active() by {
                assert(before.prefix_attention_mask@[c]@.len() == before.active());
            }
            assert forall|c: int| 0 <= c < state.batch implies (
            #[trigger] state.prefix_position_ids@[c])@.len() == before.active() by {
                assert(before.prefix_position_ids@[c]@.len() == before.active());
            }
        }
        count
    }

    /// Ends a frame of a stream: as [`Self::finish`], and enters the frame into the window.
    pub fn finish_streaming(
        self,
        state: &mut AutoGazeStreamingCacheState,
        output: &mut AutoGazeGenerateOutput,
        frame_idx: usize,
        num_vision_tokens_each_frame: usize,
    ) -> (r: usize)
        requires
            self.fits(*old(state)),
            old(output).rows(self.batch()),
            offset_fits(self, frame_idx * num_vision_tokens_each_frame),
            frame_idx * num_vision_tokens_each_frame <= usize::MAX,
            old(state).vision_tokens + self.count() <= usize::MAX,
        ensures
            r == self.count(),
            frame_settled(*final(state), *old(state), self),
            final(state).batch == old(state).batch,
            final(state).vision_tokens == old(state).vision_tokens,
            final(state).dim == old(state).dim,
            final(state).max_tokens == old(state).max_tokens,
            final(state).cache_capacity == old(state).cache_capacity,
            final(state).pending_query == old(state).pending_query,
            final(state).processed_frames == if old(state).processed_frames < usize::MAX {
                (old(state).processed_frames + 1) as usize
            } else {
                usize::MAX
            },
            final(state).frame_token_lengths@ == old(state).frame_token_lengths@.push(
                (old(state).vision_tokens + self.count()) as usize,
            ),
            frame_entered(
                *final(output),
                *old(output),
                self,
                frame_idx * num_vision_tokens_each_frame,
            ),
    {
        let count: usize = self.finish(state, output, frame_idx, num_vision_tokens_each_frame);
        state.record_completed_frame(state.vision_tokens + count);
        count
    }
}

/// A row that takes a block has its tokens at the end, each padded exactly where it is not valid. It
/// is finished once a token is not valid, and not otherwise where no coverage is watched. Tokens
/// that are not valid cover nothing.
pub proof fn lemma_row_takes_block(
    row: RowModel,
    tokens: Seq<i64>,
    valid: Seq<bool>,
    confidences: Seq<Binary32>,
    n: nat,
)
    requires
        n <= tokens.len(),
        n <= valid.len(),
        n <= confidences.len(),
    ensures
        ({
            let after = row.taken_block(tokens, valid, confidences, n);
            &&& after.tokens == row.tokens + tokens.take(n as int)
            &&& after.confidences == row.confidences + confidences.take(n as int)
            &&& after.padded.len() == row.padded.len() + n
            &&& forall|i: int|
                0 <= i < n ==> #[trigger] after.padded[row.padded.len() + i] == !valid[i]
            &&& row.finished ==> after.finished
            &&& forall|i: int| 0 <= i < n && !(#[trigger] valid[i]) ==> after.finished
            &&& row.coverage is None ==> after.coverage is None && (after.finished ==> row.finished
                || exists|i: int| 0 <= i < n && !(#[trigger] valid[i]))
            &&& (forall|i: int| 0 <= i < n ==> !(#[trigger] valid[i])) ==> after.coverage
                == row.coverage
            &&& n > 0 && after.coverage is Some && after.coverage->0.done() ==> after.finished
        }),
    decreases n,
{
    let after = row.taken_block(tokens, valid, confidences, n);
    if n == 0 {
        assert(after.tokens =~= row.tokens + tokens.take(0));
        assert(after.confidences =~= row.confidences + confidences.take(0));
    } else {
        let m = (n - 1) as nat;
        lemma_row_takes_block(row, tokens, valid, confidences, m);
        let before = row.taken_block(tokens, valid, confidences, m);
        assert(after.tokens =~= row.tokens + tokens.take(n as int));
        assert(after.confidences =~= row.confidences + confidences.take(n as int));
        assert forall|i: int| 0 <= i < n implies #[trigger] after.padded[row.padded.len() + i]
            == !valid[i] by {
            if i < m {
                assert(after.padded[row.padded.len() + i] == before.padded[row.padded.len() + i]);
            }
        }
        if forall|i: int| 0 <= i < n ==> !(#[trigger] valid[i]) {
            assert(!valid[n - 1]);
            assert(forall|i: int| 0 <= i < m ==> !(#[trigger] valid[i]));
        }
        if row.coverage is None && after.finished && !row.finished {
            if before.finished {
                let i = choose|i: int| 0 <= i < m && !(#[trigger] valid[i]);
                assert(!valid[i]);
            } else {
                assert(!valid[n - 1]);
            }
        }
    }
}

/// A frame that is settled leaves its padding unmarked and every other slot as it was, and the slots
/// of its last block pending.
pub proof fn lemma_padding_is_unmarked(
    after: AutoGazeStreamingCacheState,
    before: AutoGazeStreamingCacheState,
    frame: FrameDecode,
    b: int,
    i: int,
)
    requires
        frame_settled(after, before, frame),
        frame.fits(before),
        0 <= b < before.batch,
        0 <= i < before.active(),
    ensures
        ({
            let from = frame.generation_prefix_len as int;
            let (old_row, new_row) = (before.row(b), after.row(b));
            &&& i < from ==> new_row.mask[i] == old_row.mask[i]
            &&& i >= from ==> i - from < frame.row(b).padded.len() && new_row.mask[i] == (
            if frame.row(b).padded[i - from] {
                0
            } else {
                old_row.mask[i]
            })
            &&& new_row.positions == old_row.positions
            &&& new_row.pending == frame.last_generated_indices@[b]@
        }),
{
    assert(after.row(b).mask == mask_without_padding(
        before.row(b).mask,
        frame.generation_prefix_len as int,
        frame.row(b).padded,
    ));
    assert(before.prefix_attention_mask@[b]@.len() == before.active());
    assert(frame.frame_padded@[b]@.len() == frame.count());
}

} // verus!
