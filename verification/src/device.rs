//! Decoding on a device in chunks: several steps run before their tokens are read back, and what
//! ran too far is taken off the sequence again.
use crate::arith::{ceil_quotient, div_ceil, max_int, max_usize, min_int, min_usize};
use crate::coverage::trackers_wf;
use crate::decode::{
    append_generated, lemma_rows_wf, selection_fits, slots_generated, FrameDecode, RowModel,
};
use crate::positions::{cut_to, entries_below, slot_range, truncate_generation_rows};
use crate::selection::GreedyTokenSelection;
use crate::streaming::{AutoGazeStreamingCacheState, SequenceRow};
use crate::trace::{single, ZERO_BITS};
use vstd::prelude::*;

verus! {

/// How decoded tokens are read back from the decoder.
#[derive(Clone, Copy, Debug, PartialEq, Eq, Structural)]
pub enum AutoGazeDecodeStrategy {
    /// Tokens are selected on the host after every step.
    HostGreedy,
    /// Tokens are selected on the device and read back after every chunk of steps. Tokens and
    /// validity are those of the selection on the host; confidences are marks of validity.
    DeviceGreedy { chunk_size: usize },
    /// Tokens are selected on the device and read back once per frame. Tokens and validity are those
    /// of the selection on the host; confidences are marks of validity.
    DeviceTerminalGreedy { chunk_size: usize },
}

impl Default for AutoGazeDecodeStrategy {
    fn default() -> (r: AutoGazeDecodeStrategy)
        ensures
            r == AutoGazeDecodeStrategy::HostGreedy,
    {
        AutoGazeDecodeStrategy::HostGreedy
    }
}

impl AutoGazeDecodeStrategy {
    /// The steps of a chunk, at least one.
    pub open spec fn spec_chunk_size(self) -> usize {
        match self {
            AutoGazeDecodeStrategy::HostGreedy => 1,
            AutoGazeDecodeStrategy::DeviceGreedy { chunk_size } => max_int(
                chunk_size as int,
                1,
            ) as usize,
            AutoGazeDecodeStrategy::DeviceTerminalGreedy { chunk_size } => max_int(
                chunk_size as int,
                1,
            ) as usize,
        }
    }

    pub fn device_greedy(chunk_size: usize) -> (r: AutoGazeDecodeStrategy)
        ensures
            r == (AutoGazeDecodeStrategy::DeviceGreedy { chunk_size }),
    {
        AutoGazeDecodeStrategy::DeviceGreedy { chunk_size }
    }

    pub fn device_terminal_greedy(chunk_size: usize) -> (r: AutoGazeDecodeStrategy)
        ensures
            r == (AutoGazeDecodeStrategy::DeviceTerminalGreedy { chunk_size }),
    {
        AutoGazeDecodeStrategy::DeviceTerminalGreedy { chunk_size }
    }

    /// The steps of a chunk; zero counts as one, and the host reads back every step.
    pub fn chunk_size(self) -> (r: usize)
        ensures
            r == self.spec_chunk_size(),
            r >= 1,
    {
        match self {
            AutoGazeDecodeStrategy::HostGreedy => 1,
            AutoGazeDecodeStrategy::DeviceGreedy { chunk_size } => max_usize(chunk_size, 1),
            AutoGazeDecodeStrategy::DeviceTerminalGreedy { chunk_size } => max_usize(
                chunk_size,
                1,
            ),
        }
    }

    /// The same strategy with chunks of at least one step.
    pub fn normalized(self) -> (r: AutoGazeDecodeStrategy)
        ensures
            r == match self {
                AutoGazeDecodeStrategy::HostGreedy => self,
                AutoGazeDecodeStrategy::DeviceGreedy { chunk_size } =>
                    AutoGazeDecodeStrategy::DeviceGreedy { chunk_size: self.spec_chunk_size() },
                AutoGazeDecodeStrategy::DeviceTerminalGreedy { chunk_size } =>
                    AutoGazeDecodeStrategy::DeviceTerminalGreedy {
                    chunk_size: self.spec_chunk_size(),
                },
            },
            r.spec_chunk_size() == self.spec_chunk_size(),
    {
        match self {
            AutoGazeDecodeStrategy::HostGreedy => AutoGazeDecodeStrategy::HostGreedy,
            AutoGazeDecodeStrategy::DeviceGreedy { chunk_size } =>
                AutoGazeDecodeStrategy::DeviceGreedy { chunk_size: max_usize(chunk_size, 1) },
            AutoGazeDecodeStrategy::DeviceTerminalGreedy { chunk_size } =>
                AutoGazeDecodeStrategy::DeviceTerminalGreedy {
                chunk_size: max_usize(chunk_size, 1),
            },
        }
    }
}

/// The steps of the next chunk: what is left of the budget, at most a full chunk, at least one.
pub open spec fn steps_requested(
    count: nat,
    max_tokens: nat,
    chunk_size: nat,
    num_multi: nat,
) -> int {
    max_int(
        min_int(
            max_int(chunk_size as int, 1),
            ceil_quotient(
                max_int(max_tokens - count, 0) as nat,
                max_int(num_multi as int, 1) as nat,
            ) as int,
        ),
        1,
    )
}

/// The steps of the next chunk.
pub fn requested_steps(
    current_len: usize,
    max_tokens: usize,
    decode_chunk_size: usize,
    num_multi_token_pred: usize,
) -> (r: usize)
    ensures
        r == steps_requested(
            current_len as nat,
            max_tokens as nat,
            decode_chunk_size as nat,
            num_multi_token_pred as nat,
        ),
{
    let remaining: usize = max_tokens.saturating_sub(current_len);
    max_usize(
        min_usize(
            max_usize(decode_chunk_size, 1),
            div_ceil(remaining, max_usize(num_multi_token_pred, 1)),
        ),
        1,
    )
}

impl RowModel {
    /// With `n` slots of a step that was read back: the row's own ones from `offset` on, end tokens
    /// where the row was finished before the step.
    pub open spec fn stepped(
        self,
        selection: GreedyTokenSelection,
        b: int,
        offset: int,
        n: nat,
        eos: i64,
    ) -> RowModel {
        if self.finished {
            self.padding_taken(eos, n)
        } else {
            self.taken_block(
                selection.tokens@[b]@.subrange(offset, offset + n),
                selection.valid@[b]@.subrange(offset, offset + n),
                selection.confidences@[b]@.subrange(offset, offset + n),
                n,
            )
        }
    }
}

/// The tokens that the rows have taken.
pub open spec fn rows_count(rows: Seq<RowModel>) -> nat {
    if rows.len() == 0 {
        0
    } else {
        rows[0].tokens.len()
    }
}

/// Every row is finished.
pub open spec fn rows_finished(rows: Seq<RowModel>) -> bool {
    forall|b: int| 0 <= b < rows.len() ==> (#[trigger] rows[b]).finished
}

/// The slots of a step that still fit the budget.
pub open spec fn step_width(rows: Seq<RowModel>, num_multi: nat, max_tokens: nat) -> nat {
    min_int(num_multi as int, max_tokens - rows_count(rows)) as nat
}

/// The rows after step `k` of a chunk.
pub open spec fn rows_stepped(
    rows: Seq<RowModel>,
    selection: GreedyTokenSelection,
    k: nat,
    num_multi: nat,
    max_tokens: nat,
    eos: i64,
) -> Seq<RowModel> {
    Seq::new(
        rows.len(),
        |b: int|
            rows[b].stepped(
                selection,
                b,
                (k * num_multi) as int,
                step_width(rows, num_multi, max_tokens),
                eos,
            ),
    )
}

/// What a chunk makes of the rows from step `k` on: the rows, how many steps count, and how many
/// slots of the last of them. Steps count until the budget is used up or every row is finished.
pub open spec fn chunk_result(
    rows: Seq<RowModel>,
    selection: GreedyTokenSelection,
    k: nat,
    steps: nat,
    last: nat,
    num_multi: nat,
    max_tokens: nat,
    eos: i64,
) -> (Seq<RowModel>, nat, nat)
    decreases steps - k,
{
    if k >= steps || rows_count(rows) >= max_tokens || rows_finished(rows) {
        (rows, k, last)
    } else {
        chunk_result(
            rows_stepped(rows, selection, k, num_multi, max_tokens, eos),
            selection,
            k + 1,
            steps,
            step_width(rows, num_multi, max_tokens),
            num_multi,
            max_tokens,
            eos,
        )
    }
}

/// What counts of a chunk.
#[derive(Clone, Copy, Debug, PartialEq, Eq, Structural)]
pub struct ChunkOutcome {
    /// The slots that every row took.
    pub actual_slots: usize,
    /// The steps that count.
    pub actual_steps: usize,
    /// The slots of the last step that counts.
    pub last_new_tokens: usize,
    /// The slots that leave the cache.
    pub forgotten_slots: usize,
}

/// The cached slots of a chunk that do not count. The last step was not read, and the last one that
/// counts waits to be read, so what leaves the cache are the blocks from the last one that counts
/// up to the last one.
pub open spec fn slots_forgotten(steps: nat, counted: nat, num_multi: nat) -> int {
    max_int(steps - max_int(counted as int, 1), 0) * num_multi
}

/// `after` is `before` with a chunk of steps read back, and the sequence without the slots that do
/// not count. `steps` holds the slots of each step. Where all but the last step was cached before,
/// all but the last step that counts is cached after.
pub open spec fn chunk_reconciled(
    after: FrameDecode,
    after_state: AutoGazeStreamingCacheState,
    before: FrameDecode,
    before_state: AutoGazeStreamingCacheState,
    steps: Seq<Vec<Vec<usize>>>,
    selection: GreedyTokenSelection,
    num_multi: nat,
    eos: i64,
    outcome: ChunkOutcome,
) -> bool {
    let (rows, counted, last) = chunk_result(
        before.rows(),
        selection,
        0,
        steps.len(),
        0,
        num_multi,
        before.max_tokens as nat,
        eos,
    );
    let drop = steps.len() * num_multi - outcome.actual_slots;
    &&& after.fits_open(after_state)
    &&& before.batch() > 0 ==> after.open_slots(after_state) == 0
    &&& after.same_frame(before)
    &&& after.is_first_token == before.is_first_token
    &&& after.rows() == rows
    &&& outcome.actual_steps == counted
    &&& outcome.last_new_tokens == last
    &&& outcome.actual_slots == after.count() - before.count()
    &&& outcome.forgotten_slots == slots_forgotten(steps.len(), counted, num_multi)
    &&& drop >= 0
    &&& chunk_taken_off(after_state, before_state, drop, outcome.forgotten_slots as int)
    &&& before.batch() > 0 && counted > 0 && before_state.past_len + num_multi
        == before_state.active() ==> after_state.past_len + last == after_state.active()
    &&& forall|b: int|
        0 <= b < before.batch() ==> (#[trigger] after.last_generated_indices@[b])@
            == pending_after_chunk(
            if counted == 0 {
                before.last_generated_indices@[b]@
            } else {
                cut_to(steps[counted - 1]@[b]@, last as int)
            },
            drop,
            after_state.active(),
        )
}

impl FrameDecode {
    /// The slots of the sequence behind the tokens taken, which are not read back yet.
    pub open spec fn open_slots(self, state: AutoGazeStreamingCacheState) -> int {
        state.active() - self.generation_prefix_len - self.count()
    }

    /// The frame belongs to the sequence, which may have slots that are not read back yet.
    pub open spec fn fits_open(self, state: AutoGazeStreamingCacheState) -> bool {
        &&& self.wf()
        &&& state.wf()
        &&& state.batch == self.batch()
        &&& self.batch() > 0 ==> self.open_slots(state) >= 0
    }

    /// Appends the slots of a step that is selected on the device, and returns their indices.
    pub fn append_device_step(
        &mut self,
        state: &mut AutoGazeStreamingCacheState,
        num_multi_token_pred: usize,
    ) -> (r: Vec<Vec<usize>>)
        requires
            old(self).fits_open(*old(state)),
        ensures
            final(self).fits_open(*final(state)),
            old(self).batch() > 0 ==> final(self).open_slots(*final(state)) == old(self).open_slots(
                *old(state),
            ) + num_multi_token_pred,
            final(self).same_frame(*old(self)),
            !final(self).is_first_token,
            final(self).rows() == old(self).rows(),
            final(self).last_generated_indices == old(self).last_generated_indices,
            slots_generated(
                *final(state),
                *old(state),
                old(self).generation_tail_positions@,
                num_multi_token_pred as nat,
            ),
            r@.len() == old(self).batch(),
            forall|b: int|
                0 <= b < r@.len() ==> (#[trigger] r@[b])@ == slot_range(
                    old(state).active(),
                    num_multi_token_pred as nat,
                ),
    {
        let ghost before = *self;
        let generated: Vec<Vec<usize>> = append_generated(
            state,
            &self.generation_tail_positions,
            num_multi_token_pred,
        );
        self.is_first_token = false;
        proof {
            assert forall|b: int| 0 <= b < before.batch() implies #[trigger] self.row(b)
                == before.row(b) by {
                assert(self.row(b) =~= before.row(b));
            }
            assert(self.rows() =~= before.rows());
            assert forall|b: int| 0 <= b < self.batch() implies (
            #[trigger] self.frame_tokens@[b])@.len() == self.count() by {
                assert(before.frame_tokens@[b]@.len() == before.count());
            }
            assert forall|b: int| 0 <= b < self.batch() implies (
            #[trigger] self.frame_padded@[b])@.len() == self.count() by {
                assert(before.frame_padded@[b]@.len() == before.count());
            }
            assert forall|b: int| 0 <= b < self.batch() implies (
            #[trigger] self.frame_confidences@[b])@.len() == self.count() by {
                assert(before.frame_confidences@[b]@.len() == before.count());
            }
        }
        generated
    }

    /// Takes what was read back of a chunk of steps, and takes the slots that do not count off the
    /// sequence. `chunk_steps` holds the slot indices of each step; `selection` holds the tokens of
    /// all steps end to end.
    pub fn reconcile_chunk(
        &mut self,
        state: &mut AutoGazeStreamingCacheState,
        chunk_steps: &[Vec<Vec<usize>>],
        selection: &GreedyTokenSelection,
        num_multi_token_pred: usize,
        eos_token_id: i64,
    ) -> (r: ChunkOutcome)
        requires
            old(self).fits_open(*old(state)),
            num_multi_token_pred >= 1,
            chunk_steps@.len() * num_multi_token_pred <= usize::MAX,
            old(self).batch() > 0 ==> old(self).open_slots(*old(state)) == chunk_steps@.len()
                * num_multi_token_pred,
            selection_fits(
                *selection,
                old(self).batch(),
                chunk_steps@.len() * num_multi_token_pred as nat,
            ),
            forall|k: int|
                0 <= k < chunk_steps@.len() ==> (#[trigger] chunk_steps@[k])@.len() == old(self).batch(),
            forall|k: int, b: int|
                0 <= k < chunk_steps@.len() && 0 <= b < old(self).batch()
                    ==> (#[trigger] chunk_steps@[k]@[b])@.len() == num_multi_token_pred,
        ensures
            chunk_reconciled(
                *final(self),
                *final(state),
                *old(self),
                *old(state),
                chunk_steps@,
                *selection,
                num_multi_token_pred as nat,
                eos_token_id,
                r,
            ),
    {
        let ghost before = *self;
        let ghost state0 = *state;
        let total_steps: usize = chunk_steps.len();
        let ghost plan = chunk_result(
            before.rows(),
            *selection,
            0,
            total_steps as nat,
            0,
            num_multi_token_pred as nat,
            before.max_tokens as nat,
            eos_token_id,
        );
        let generated_slots: usize = total_steps * num_multi_token_pred;
        let mut actual_slots: usize = 0;
        let mut last_new: usize = 0;
        let mut k: usize = 0;
        while k < total_steps && self.taken_count() < self.max_tokens && !self.every_row_finished()
            invariant
                k <= total_steps,
                total_steps == chunk_steps@.len(),
                num_multi_token_pred >= 1,
                generated_slots == total_steps * num_multi_token_pred,
                before.wf(),
                self.wf(),
                self.same_frame(before),
                self.is_first_token == before.is_first_token,
                *state == state0,
                selection_fits(*selection, before.batch(), generated_slots as nat),
                forall|k: int|
                    0 <= k < chunk_steps@.len() ==> (#[trigger] chunk_steps@[k])@.len()
                        == before.batch(),
                forall|k: int, b: int|
                    0 <= k < chunk_steps@.len() && 0 <= b < before.batch()
                        ==> (#[trigger] chunk_steps@[k]@[b])@.len() == num_multi_token_pred,
                actual_slots <= k * num_multi_token_pred,
                last_new <= num_multi_token_pred,
                self.batch() > 0 ==> self.count() == before.count() + actual_slots,
                k > 0 ==> self.batch() > 0,
                self.batch() == 0 ==> actual_slots == 0,
                self.max_tokens == before.max_tokens,
                k > 0 ==> actual_slots == (k - 1) * num_multi_token_pred + last_new,
                k > 0 && last_new < num_multi_token_pred ==> self.count() >= self.max_tokens,
                k == 0 ==> actual_slots == 0 && last_new == 0,
                plan == chunk_result(
                    self.rows(),
                    *selection,
                    k as nat,
                    total_steps as nat,
                    last_new as nat,
                    num_multi_token_pred as nat,
                    before.max_tokens as nat,
                    eos_token_id,
                ),
                forall|b: int|
                    0 <= b < before.batch() ==> (#[trigger] self.last_generated_indices@[b])@
                        == if k == 0 {
                        before.last_generated_indices@[b]@
                    } else {
                        cut_to(chunk_steps@[k - 1]@[b]@, last_new as int)
                    },
            decreases total_steps - k,
        {
            let ghost start = *self;
            proof {
                assert(self.batch() > 0) by {
                    if self.batch() == 0 {
                        assert(self.all_finished());
                    }
                }
                assert(rows_count(self.rows()) == self.count());
                assert(!rows_finished(self.rows())) by {
                    if rows_finished(self.rows()) {
                        assert forall|b: int| 0 <= b < self.batch() implies #[trigger] self.finished@[
                        b] by {
                            assert(self.rows()[b].finished);
                        }
                    }
                }
                assert(k * num_multi_token_pred + num_multi_token_pred <= total_steps
                    * num_multi_token_pred && 0 <= k * num_multi_token_pred) by (nonlinear_arith)
                    requires
                        0 <= k,
                        k + 1 <= total_steps,
                        num_multi_token_pred >= 1,
                ;
                assert((k + 1) * num_multi_token_pred == k * num_multi_token_pred
                    + num_multi_token_pred) by (nonlinear_arith);
                assert((k - 1) * num_multi_token_pred + num_multi_token_pred == k
                    * num_multi_token_pred) by (nonlinear_arith);
                assert(0 * num_multi_token_pred == 0) by (nonlinear_arith);
            }
            let new_tokens: usize = min_usize(
                num_multi_token_pred,
                self.max_tokens - self.taken_count(),
            );
            let offset: usize = k * num_multi_token_pred;
            self.take_step(selection, offset, new_tokens, eos_token_id);
            let ghost stepped = *self;
            let indices: Vec<Vec<usize>> = cut_indices(&chunk_steps[k], new_tokens);
            self.last_generated_indices = indices;
            proof {
                lemma_same_rows(*self, stepped);
                assert(self.rows() =~= rows_stepped(
                    start.rows(),
                    *selection,
                    k as nat,
                    num_multi_token_pred as nat,
                    before.max_tokens as nat,
                    eos_token_id,
                ));
            }
            actual_slots = actual_slots + new_tokens;
            last_new = new_tokens;
            k = k + 1;
        }
        proof {
            assert(rows_count(self.rows()) == self.count());
            if self.all_finished() {
                assert forall|b: int| 0 <= b < self.rows().len() implies (
                #[trigger] self.rows()[b]).finished by {
                    assert(self.finished@[b]);
                }
            }
            assert(plan == (self.rows(), k as nat, last_new as nat));
            assert(actual_slots <= generated_slots) by (nonlinear_arith)
                requires
                    actual_slots <= k * num_multi_token_pred,
                    k <= total_steps,
                    generated_slots == total_steps * num_multi_token_pred,
            ;
        }
        let drop: usize = generated_slots - actual_slots;
        let ghost taken = *self;
        truncate_generation_rows(
            &mut state.prefix_attention_mask,
            &mut state.prefix_position_ids,
            &mut self.last_generated_indices,
            drop,
        );
        let counting: usize = max_usize(k, 1);
        let behind: usize = if counting < total_steps {
            total_steps - counting
        } else {
            0
        };
        proof {
            assert(0 <= behind * num_multi_token_pred <= total_steps * num_multi_token_pred)
                by (nonlinear_arith)
                requires
                    0 <= behind <= total_steps,
                    num_multi_token_pred >= 1,
            ;
        }
        let forgotten: usize = behind * num_multi_token_pred;
        state.past_len = state.past_len.saturating_sub(forgotten);
        proof {
            lemma_same_rows(*self, taken);
            lemma_truncated(*state, state0, drop as nat, forgotten as nat);
            if k > 0 {
                assert(behind == total_steps - k);
                assert(behind * num_multi_token_pred + k * num_multi_token_pred == total_steps
                    * num_multi_token_pred) by (nonlinear_arith)
                    requires
                        behind == total_steps - k,
                ;
                assert(k * num_multi_token_pred == (k - 1) * num_multi_token_pred
                    + num_multi_token_pred) by (nonlinear_arith);
                assert((k - 1) * num_multi_token_pred >= 0) by (nonlinear_arith)
                    requires
                        k >= 1,
                ;
            }
            assert forall|b: int| 0 <= b < before.batch() implies (
            #[trigger] self.last_generated_indices@[b])@ == pending_after_chunk(
                taken.last_generated_indices@[b]@,
                drop as int,
                state.active(),
            ) by {
                assert(state0.prefix_attention_mask@[b]@.len() == state0.active());
            }
        }
        ChunkOutcome {
            actual_slots,
            actual_steps: k,
            last_new_tokens: last_new,
            forgotten_slots: forgotten,
        }
    }

    /// Takes the slots of a step off the sequence that the decoder has not read.
    pub(crate) fn drop_unread_step(
        self,
        state: &mut AutoGazeStreamingCacheState,
        num_multi_token_pred: usize,
    )
        requires
            self.fits_open(*old(state)),
        ensures
            chunk_taken_off(*final(state), *old(state), num_multi_token_pred as int, 0),
    {
        let ghost state0 = *state;
        let mut pending: Vec<Vec<usize>> = self.last_generated_indices;
        truncate_generation_rows(
            &mut state.prefix_attention_mask,
            &mut state.prefix_position_ids,
            &mut pending,
            num_multi_token_pred,
        );
        proof {
            lemma_truncated(*state, state0, num_multi_token_pred as nat, 0);
        }
    }

    /// Lets every row take `new_tokens` slots of a step that was read back.
    fn take_step(
        &mut self,
        selection: &GreedyTokenSelection,
        offset: usize,
        new_tokens: usize,
        eos_token_id: i64,
    )
        requires
            old(self).wf(),
            exists|width: nat|
                selection_fits(*selection, old(self).batch(), width) && offset + new_tokens
                    <= width,
        ensures
            final(self).wf(),
            final(self).same_frame(*old(self)),
            final(self).is_first_token == old(self).is_first_token,
            final(self).last_generated_indices == old(self).last_generated_indices,
            old(self).batch() > 0 ==> final(self).count() == old(self).count() + new_tokens,
            forall|b: int|
                0 <= b < old(self).batch() ==> #[trigger] final(self).row(b) == old(self).row(
                    b,
                ).stepped(*selection, b, offset as int, new_tokens as nat, eos_token_id),
    {
        let ghost before = *self;
        let ghost width = choose|width: nat|
            selection_fits(*selection, before.batch(), width) && offset + new_tokens <= width;
        let mut b: usize = 0;
        while b < self.finished.len()
            invariant
                b <= self.batch(),
                before.wf(),
                self.same_frame(before),
                self.is_first_token == before.is_first_token,
                self.last_generated_indices == before.last_generated_indices,
                trackers_wf(self.coverage_trackers),
                self.coverage_trackers matches Some(trackers) ==> trackers@.len() == before.batch(),
                self.frame_tokens@.len() == before.batch(),
                self.frame_padded@.len() == before.batch(),
                self.frame_confidences@.len() == before.batch(),
                selection_fits(*selection, before.batch(), width),
                offset + new_tokens <= width,
                forall|c: int|
                    0 <= c < before.batch() ==> #[trigger] self.row(c) == if c < b {
                        before.row(c).stepped(
                            *selection,
                            c,
                            offset as int,
                            new_tokens as nat,
                            eos_token_id,
                        )
                    } else {
                        before.row(c)
                    },
            decreases before.batch() - b,
        {
            let ghost start = *self;
            assert(start.row(b as int) == before.row(b as int));
            assert(selection.tokens@[b as int]@.len() == width);
            assert(selection.valid@[b as int]@.len() == width);
            assert(selection.confidences@[b as int]@.len() == width);
            if self.finished[b] {
                self.take_padding(b, eos_token_id, new_tokens);
            } else {
                self.take_row(
                    b,
                    &selection.tokens[b],
                    &selection.valid[b],
                    &selection.confidences[b],
                    offset,
                    new_tokens,
                );
            }
            proof {
                assert forall|c: int| 0 <= c < before.batch() && c != b implies #[trigger] self.row(
                    c,
                ) == start.row(c) by {}
            }
            b = b + 1;
        }
        proof {
            let rows = |c: int|
                before.row(c).stepped(
                    *selection,
                    c,
                    offset as int,
                    new_tokens as nat,
                    eos_token_id,
                );
            assert forall|c: int| 0 <= c < before.batch() implies #[trigger] self.row(c) == rows(
                c,
            ) by {}
            lemma_rows_wf(*self, before, new_tokens as nat, rows);
        }
    }
}

/// The pending slots that are left after the last `drop` slots were taken off.
pub open spec fn pending_after_chunk(pending: Seq<usize>, drop: int, active: nat) -> Seq<usize> {
    if drop == 0 {
        pending
    } else {
        entries_below(pending, active as int)
    }
}

/// `after` is `before` without the last `drop` slots, and without the last `forgotten` cached ones.
pub open spec fn chunk_taken_off(
    after: AutoGazeStreamingCacheState,
    before: AutoGazeStreamingCacheState,
    drop: int,
    forgotten: int,
) -> bool {
    &&& after.wf()
    &&& after.same_settings(before)
    &&& after.frame_token_lengths == before.frame_token_lengths
    &&& after.past_len == max_int(before.past_len - forgotten, 0)
    &&& before.batch > 0 ==> after.active() == max_int(before.active() - drop, 0)
    &&& forall|b: int|
        0 <= b < before.batch ==> #[trigger] after.row(b) == (SequenceRow {
            mask: cut_to(before.row(b).mask, max_int(before.active() - drop, 0)),
            positions: cut_to(before.row(b).positions, max_int(before.active() - drop, 0)),
            ..before.row(b)
        })
}

proof fn lemma_truncated(
    after: AutoGazeStreamingCacheState,
    before: AutoGazeStreamingCacheState,
    drop: nat,
    forgotten: nat,
)
    requires
        before.wf(),
        after.prefix_attention_mask@.len() == before.batch,
        after.prefix_position_ids@.len() == before.batch,
        after.same_settings(before),
        after.frame_token_lengths == before.frame_token_lengths,
        after.past_len == max_int(before.past_len - forgotten, 0),
        after.pending_position_indices == before.pending_position_indices,
        after.position_offsets == before.position_offsets,
        after.next_position_ids == before.next_position_ids,
        forall|b: int|
            0 <= b < before.batch ==> (#[trigger] after.prefix_attention_mask@[b])@ == if drop
                > 0 {
                cut_to(
                    before.prefix_attention_mask@[b]@,
                    max_int(before.prefix_attention_mask@[b]@.len() - drop, 0),
                )
            } else {
                before.prefix_attention_mask@[b]@
            },
        forall|b: int|
            0 <= b < before.batch ==> (#[trigger] after.prefix_position_ids@[b])@ == if drop > 0 {
                cut_to(
                    before.prefix_position_ids@[b]@,
                    max_int(before.prefix_attention_mask@[b]@.len() - drop, 0),
                )
            } else {
                before.prefix_position_ids@[b]@
            },
    ensures
        chunk_taken_off(after, before, drop as int, forgotten as int),
{
    assert forall|b: int| 0 <= b < before.batch implies #[trigger] after.row(b) == (SequenceRow {
        mask: cut_to(before.row(b).mask, max_int(before.active() - drop, 0)),
        positions: cut_to(before.row(b).positions, max_int(before.active() - drop, 0)),
        ..before.row(b)
    }) by {
        assert(before.prefix_attention_mask@[b]@.len() == before.active());
        assert(before.prefix_position_ids@[b]@.len() == before.active());
        assert(after.prefix_attention_mask@[b]@ =~= cut_to(
            before.row(b).mask,
            max_int(before.active() - drop, 0),
        ));
        assert(after.prefix_position_ids@[b]@ =~= cut_to(
            before.row(b).positions,
            max_int(before.active() - drop, 0),
        ));
    }
    assert forall|b: int| 0 <= b < before.batch implies (
    #[trigger] after.prefix_attention_mask@[b])@.len() == max_int(before.active() - drop, 0) by {
        assert(before.prefix_attention_mask@[b]@.len() == before.active());
    }
    assert forall|b: int| 0 <= b < before.batch implies (
    #[trigger] after.prefix_position_ids@[b])@.len() == max_int(before.active() - drop, 0) by {
        assert(before.prefix_attention_mask@[b]@.len() == before.active());
        assert(before.prefix_position_ids@[b]@.len() == before.active());
    }
}

/// Rows stay what they are where only the last block's indices change.
proof fn lemma_same_rows(after: FrameDecode, before: FrameDecode)
    requires
        before.wf(),
        after.frame_tokens == before.frame_tokens,
        after.frame_padded == before.frame_padded,
        after.frame_confidences == before.frame_confidences,
        after.finished == before.finished,
        after.coverage_trackers == before.coverage_trackers,
        after.generation_tail_positions == before.generation_tail_positions,
        after.last_generated_indices@.len() == before.batch(),
    ensures
        after.wf(),
        after.count() == before.count(),
        after.rows() == before.rows(),
        forall|b: int| 0 <= b < before.batch() ==> #[trigger] after.row(b) == before.row(b),
{
    assert forall|b: int| 0 <= b < before.batch() implies #[trigger] after.row(b) == before.row(
        b,
    ) by {
        assert(after.row(b) =~= before.row(b));
    }
    assert(after.rows() =~= before.rows());
    assert forall|b: int| 0 <= b < after.batch() implies (
    #[trigger] after.frame_tokens@[b])@.len() == after.count() by {
        assert(before.frame_tokens@[b]@.len() == before.count());
    }
    assert forall|b: int| 0 <= b < after.batch() implies (
    #[trigger] after.frame_padded@[b])@.len() == after.count() by {
        assert(before.frame_padded@[b]@.len() == before.count());
    }
    assert forall|b: int| 0 <= b < after.batch() implies (
    #[trigger] after.frame_confidences@[b])@.len() == after.count() by {
        assert(before.frame_confidences@[b]@.len() == before.count());
    }
}

/// The first `n` indices of every row.
fn cut_indices(rows: &Vec<Vec<usize>>, n: usize) -> (r: Vec<Vec<usize>>)
    ensures
        r@.len() == rows@.len(),
        forall|b: int| 0 <= b < r@.len() ==> (#[trigger] r@[b])@ == cut_to(rows@[b]@, n as int),
{
    let mut cut: Vec<Vec<usize>> = Vec::new();
    let mut b: usize = 0;
    while b < rows.len()
        invariant
            b <= rows@.len(),
            cut@.len() == b,
            forall|c: int|
                0 <= c < b ==> (#[trigger] cut@[c])@ == cut_to(rows@[c]@, n as int),
        decreases rows@.len() - b,
    {
        let row: &Vec<usize> = &rows[b];
        let len: usize = min_usize(n, row.len());
        let mut kept: Vec<usize> = Vec::new();
        let mut i: usize = 0;
        while i < len
            invariant
                i <= len <= row@.len(),
                kept@ == row@.take(i as int),
            decreases len - i,
        {
            kept.push(row[i]);
            i = i + 1;
            assert(kept@ =~= row@.take(i as int));
        }
        assert(kept@ =~= cut_to(row@, n as int));
        cut.push(kept);
        b = b + 1;
    }
    cut
}

/// End tokens that a finished row takes are a block of invalid tokens.
pub proof fn lemma_padding_is_block(row: RowModel, eos: i64, n: nat, m: nat)
    requires
        n <= m,
    ensures
        row.padding_taken(eos, n) == row.taken_block(
            Seq::new(m, |i: int| eos),
            Seq::new(m, |i: int| false),
            Seq::new(m, |i: int| single(ZERO_BITS)),
            n,
        ),
    decreases n,
{
    if n > 0 {
        lemma_padding_is_block(row, eos, (n - 1) as nat, m);
    }
}

/// A step that is read back from a device does to the rows what the same step does when it is
/// selected on the host, where the host pads the rows that were finished.
pub proof fn lemma_device_step_matches_host(
    rows: Seq<RowModel>,
    selection: GreedyTokenSelection,
    b: int,
    n: nat,
    eos: i64,
)
    requires
        0 <= b < rows.len(),
        selection_fits(selection, rows.len(), n),
        rows[b].finished ==> selection.tokens@[b]@ == Seq::new(n, |i: int| eos)
            && selection.valid@[b]@ == Seq::new(n, |i: int| false) && selection.confidences@[b]@
            == Seq::new(n, |i: int| single(ZERO_BITS)),
    ensures
        rows[b].stepped(selection, b, 0, n, eos) == rows[b].taken_block(
            selection.tokens@[b]@,
            selection.valid@[b]@,
            selection.confidences@[b]@,
            n,
        ),
{
    if rows[b].finished {
        lemma_padding_is_block(rows[b], eos, n, n);
    } else {
        assert(selection.tokens@[b]@.len() == n);
        assert(selection.valid@[b]@.len() == n);
        assert(selection.confidences@[b]@.len() == n);
        assert(selection.tokens@[b]@.subrange(0, n as int) =~= selection.tokens@[b]@);
        assert(selection.valid@[b]@.subrange(0, n as int) =~= selection.valid@[b]@);
        assert(selection.confidences@[b]@.subrange(0, n as int) =~= selection.confidences@[b]@);
    }
}

/// `whole` holds the slots of `first` and then those of `second`.
pub open spec fn selections_joined(
    whole: GreedyTokenSelection,
    first: GreedyTokenSelection,
    second: GreedyTokenSelection,
    batch: nat,
) -> bool {
    forall|b: int|
        0 <= b < batch ==> (#[trigger] whole.tokens@[b])@ == first.tokens@[b]@
            + second.tokens@[b]@ && whole.valid@[b]@ == first.valid@[b]@ + second.valid@[b]@
            && whole.confidences@[b]@ == first.confidences@[b]@ + second.confidences@[b]@
}

/// Reading tokens back chunk by chunk gives the rows that reading them back once gives.
pub proof fn lemma_chunks_join(
    rows: Seq<RowModel>,
    whole: GreedyTokenSelection,
    first: GreedyTokenSelection,
    second: GreedyTokenSelection,
    a: nat,
    c: nat,
    num_multi: nat,
    max_tokens: nat,
    eos: i64,
)
    requires
        selection_fits(first, rows.len(), a * num_multi),
        selection_fits(second, rows.len(), c * num_multi),
        selections_joined(whole, first, second, rows.len()),
    ensures
        chunk_result(rows, whole, 0, a + c, 0, num_multi, max_tokens, eos).0 == chunk_result(
            chunk_result(rows, first, 0, a, 0, num_multi, max_tokens, eos).0,
            second,
            0,
            c,
            0,
            num_multi,
            max_tokens,
            eos,
        ).0,
{
    lemma_chunks_join_from(
        rows,
        whole,
        first,
        second,
        0,
        a,
        c,
        0,
        num_multi,
        max_tokens,
        eos,
    );
}

proof fn lemma_chunks_join_from(
    rows: Seq<RowModel>,
    whole: GreedyTokenSelection,
    first: GreedyTokenSelection,
    second: GreedyTokenSelection,
    k: nat,
    a: nat,
    c: nat,
    last: nat,
    num_multi: nat,
    max_tokens: nat,
    eos: i64,
)
    requires
        k <= a,
        selection_fits(first, rows.len(), a * num_multi),
        selection_fits(second, rows.len(), c * num_multi),
        selections_joined(whole, first, second, rows.len()),
    ensures
        chunk_result(rows, whole, k, a + c, last, num_multi, max_tokens, eos).0 == chunk_result(
            chunk_result(rows, first, k, a, last, num_multi, max_tokens, eos).0,
            second,
            0,
            c,
            0,
            num_multi,
            max_tokens,
            eos,
        ).0,
    decreases a - k,
{
    if rows_count(rows) >= max_tokens || rows_finished(rows) {
    } else if k == a {
        lemma_second_chunk(
            rows,
            whole,
            first,
            second,
            0,
            a,
            c,
            last,
            0,
            num_multi,
            max_tokens,
            eos,
        );
    } else {
        let w = step_width(rows, num_multi, max_tokens);
        let next = rows_stepped(rows, whole, k, num_multi, max_tokens, eos);
        assert(0 <= k * num_multi && k * num_multi + num_multi <= a * num_multi)
            by (nonlinear_arith)
            requires
                k + 1 <= a,
                num_multi >= 0,
                k >= 0,
        ;
        assert forall|b: int| 0 <= b < rows.len() implies #[trigger] next[b] == rows_stepped(
            rows,
            first,
            k,
            num_multi,
            max_tokens,
            eos,
        )[b] by {
            let from = (k * num_multi) as int;
            assert(whole.tokens@[b]@ == first.tokens@[b]@ + second.tokens@[b]@);
            assert(first.tokens@[b]@.len() == a * num_multi);
            assert(first.valid@[b]@.len() == a * num_multi);
            assert(first.confidences@[b]@.len() == a * num_multi);
            assert(whole.tokens@[b]@.subrange(from, from + w) =~= first.tokens@[b]@.subrange(
                from,
                from + w,
            ));
            assert(whole.valid@[b]@.subrange(from, from + w) =~= first.valid@[b]@.subrange(
                from,
                from + w,
            ));
            assert(whole.confidences@[b]@.subrange(from, from + w)
                =~= first.confidences@[b]@.subrange(from, from + w));
        }
        assert(next =~= rows_stepped(rows, first, k, num_multi, max_tokens, eos));
        lemma_chunks_join_from(
            next,
            whole,
            first,
            second,
            k + 1,
            a,
            c,
            w,
            num_multi,
            max_tokens,
            eos,
        );
    }
}

proof fn lemma_second_chunk(
    rows: Seq<RowModel>,
    whole: GreedyTokenSelection,
    first: GreedyTokenSelection,
    second: GreedyTokenSelection,
    j: nat,
    a: nat,
    c: nat,
    last: nat,
    last2: nat,
    num_multi: nat,
    max_tokens: nat,
    eos: i64,
)
    requires
        j <= c,
        selection_fits(first, rows.len(), a * num_multi),
        selection_fits(second, rows.len(), c * num_multi),
        selections_joined(whole, first, second, rows.len()),
    ensures
        chunk_result(rows, whole, a + j, a + c, last, num_multi, max_tokens, eos).0
            == chunk_result(rows, second, j, c, last2, num_multi, max_tokens, eos).0,
    decreases c - j,
{
    if j < c && rows_count(rows) < max_tokens && !rows_finished(rows) {
        let w = step_width(rows, num_multi, max_tokens);
        let next = rows_stepped(rows, whole, a + j, num_multi, max_tokens, eos);
        assert(0 <= j * num_multi && j * num_multi + num_multi <= c * num_multi && (a + j)
            * num_multi == a * num_multi + j * num_multi) by (nonlinear_arith)
            requires
                j + 1 <= c,
                num_multi >= 0,
                j >= 0,
        ;
        assert forall|b: int| 0 <= b < rows.len() implies #[trigger] next[b] == rows_stepped(
            rows,
            second,
            j,
            num_multi,
            max_tokens,
            eos,
        )[b] by {
            let from = ((a + j) * num_multi) as int;
            let own = (j * num_multi) as int;
            assert(whole.tokens@[b]@ == first.tokens@[b]@ + second.tokens@[b]@);
            assert(first.tokens@[b]@.len() == a * num_multi);
            assert(first.valid@[b]@.len() == a * num_multi);
            assert(first.confidences@[b]@.len() == a * num_multi);
            assert(second.tokens@[b]@.len() == c * num_multi);
            assert(second.valid@[b]@.len() == c * num_multi);
            assert(second.confidences@[b]@.len() == c * num_multi);
            assert(whole.tokens@[b]@.subrange(from, from + w) =~= second.tokens@[b]@.subrange(
                own,
                own + w,
            ));
            assert(whole.valid@[b]@.subrange(from, from + w) =~= second.valid@[b]@.subrange(
                own,
                own + w,
            ));
            assert(whole.confidences@[b]@.subrange(from, from + w)
                =~= second.confidences@[b]@.subrange(own, own + w));
        }
        assert(next =~= rows_stepped(rows, second, j, num_multi, max_tokens, eos));
        lemma_second_chunk(
            next,
            whole,
            first,
            second,
            j + 1,
            a,
            c,
            w,
            w,
            num_multi,
            max_tokens,
            eos,
        );
    }
}

/// A chunk asks for no more steps than it may, and for as many as the rest of the budget takes: one
/// step fewer would leave some of it.
pub proof fn lemma_chunk_asks_for_rest(count: nat, max_tokens: nat, chunk_size: nat, num_multi: nat)
    requires
        count < max_tokens,
        chunk_size > 0,
        num_multi > 0,
    ensures
        ({
            let steps = steps_requested(count, max_tokens, chunk_size, num_multi);
            &&& 1 <= steps <= chunk_size
            &&& (steps - 1) * num_multi < max_tokens - count
            &&& steps == chunk_size || steps * num_multi >= max_tokens - count
        }),
{
    let rest = (max_tokens - count) as nat;
    crate::arith::lemma_ceil_quotient(rest, num_multi);
    let all = ceil_quotient(rest, num_multi);
    assert(all >= 1) by (nonlinear_arith)
        requires
            all * num_multi >= rest,
            rest >= 1,
    ;
    let k = (all - 1) as nat;
    assert(k * num_multi < rest);
    let steps = steps_requested(count, max_tokens, chunk_size, num_multi);
    assert((steps - 1) * num_multi <= k * num_multi) by (nonlinear_arith)
        requires
            steps - 1 <= k,
            num_multi > 0,
    ;
}

/// Of the steps of a chunk all but the last are cached. What is forgotten leaves all but the last of
/// those that count, and nothing where none counts.
pub proof fn lemma_forgetting_keeps_counted(steps: nat, counted: nat, num_multi: nat)
    requires
        1 <= steps,
        counted <= steps,
    ensures
        counted >= 1 ==> (steps - 1) * num_multi - slots_forgotten(steps, counted, num_multi) == (
        counted - 1) * num_multi,
        counted == 0 ==> (steps - 1) * num_multi == slots_forgotten(steps, counted, num_multi),
{
    assert((steps - 1) * num_multi - (steps - counted) * num_multi == (counted - 1) * num_multi)
        by (nonlinear_arith);
}

} // verus!
