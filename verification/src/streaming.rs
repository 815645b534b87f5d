//! The rolling sequence of a decoded video: masks, positions and the window of past frames.
use crate::arith::{max_int, max_usize, min_int, min_usize};
use crate::positions::{
    all_marked, attention_mask_tensor_or_none, commit_pending_position_ids_with_offsets,
    committed_row, cut_i64, flattened, lemma_flattened_at, lemma_flattened_len, mask_prefix,
    next_valid_position_with_offset,
    position_ids_slice_tensor_optimized, row_marked, row_slice, valid_count, PositionIds,
};
use std::collections::VecDeque;
use vstd::prelude::*;

verus! {

/// One batch row of a sequence.
#[verifier::ext_equal]
pub struct SequenceRow {
    pub mask: Seq<i64>,
    pub positions: Seq<i64>,
    /// Slots whose positions are still borrowed.
    pub pending: Seq<usize>,
    /// Marked slots that have left the window.
    pub offset: i64,
    /// The position of the next marked slot.
    pub next: i64,
}

/// The entries of `indices` from `drop` on, counted from there.
pub open spec fn entries_shifted(indices: Seq<usize>, drop: int) -> Seq<usize>
    decreases indices.len(),
{
    if indices.len() == 0 {
        Seq::empty()
    } else {
        let kept = entries_shifted(indices.drop_last(), drop);
        if indices.last() < drop {
            kept
        } else {
            kept.push((indices.last() - drop) as usize)
        }
    }
}

impl SequenceRow {
    /// No slots yet.
    pub open spec fn empty() -> SequenceRow {
        SequenceRow {
            mask: Seq::empty(),
            positions: Seq::empty(),
            pending: Seq::empty(),
            offset: 0,
            next: 0,
        }
    }

    /// With the pending slots at their own positions.
    pub open spec fn committed(self) -> SequenceRow {
        SequenceRow {
            positions: committed_row(self.mask, self.positions, self.pending, self.offset as int),
            next: cut_i64(self.offset + valid_count(self.mask, self.mask.len())),
            ..self
        }
    }

    /// With nothing pending.
    pub open spec fn settled(self) -> SequenceRow {
        SequenceRow { pending: Seq::empty(), ..self }
    }

    /// With `n` more marked slots at the next positions.
    pub open spec fn extended(self, n: nat) -> SequenceRow {
        SequenceRow {
            mask: self.mask + Seq::new(n, |i: int| 1i64),
            positions: self.positions + Seq::new(n, |i: int| cut_i64(self.next + i)),
            next: cut_i64(self.next + n),
            ..self
        }
    }

    /// Without the oldest `drop` slots.
    pub open spec fn dropped(self, drop: nat) -> SequenceRow {
        SequenceRow {
            mask: self.mask.subrange(drop as int, self.mask.len() as int),
            positions: self.positions.subrange(drop as int, self.positions.len() as int),
            pending: entries_shifted(self.pending, drop as int),
            offset: cut_i64(self.offset + valid_count(self.mask, drop)),
            next: self.next,
        }
    }
}

/// Which frames leave the window before a frame of `required` slots enters: pops frames from `k` on
/// while the window holds `horizon` frames or the sequence would outgrow `capacity`. Returns the
/// number of frames popped and of slots dropped.
pub open spec fn window_plan(
    lengths: Seq<usize>,
    k: nat,
    dropped: nat,
    active: nat,
    cached: nat,
    horizon: nat,
    required: nat,
    capacity: nat,
) -> (nat, nat)
    decreases lengths.len() - k,
{
    if k < lengths.len() && (lengths.len() - k >= horizon || active - dropped + required > capacity) {
        window_plan(
            lengths,
            k + 1,
            dropped + min_int(
                lengths[k as int] as int,
                min_int(cached - dropped, active - dropped),
            ) as nat,
            active,
            cached,
            horizon,
            required,
            capacity,
        )
    } else {
        (k, dropped)
    }
}

proof fn lemma_window_plan(
    lengths: Seq<usize>,
    k: nat,
    dropped: nat,
    active: nat,
    cached: nat,
    horizon: nat,
    required: nat,
    capacity: nat,
)
    requires
        k <= lengths.len(),
        dropped <= active,
        dropped <= cached,
        horizon >= 1,
    ensures
        ({
            let (frames, slots) = window_plan(
                lengths,
                k,
                dropped,
                active,
                cached,
                horizon,
                required,
                capacity,
            );
            &&& k <= frames <= lengths.len()
            &&& dropped <= slots <= active
            &&& slots <= cached
            &&& lengths.len() - frames < horizon
        }),
    decreases lengths.len() - k,
{
    if k < lengths.len() && (lengths.len() - k >= horizon || active - dropped + required > capacity) {
        lemma_window_plan(
            lengths,
            k + 1,
            dropped + min_int(
                lengths[k as int] as int,
                min_int(cached - dropped, active - dropped),
            ) as nat,
            active,
            cached,
            horizon,
            required,
            capacity,
        );
    }
}

/// The slots of the first `k` frames.
pub open spec fn frame_slots(lengths: Seq<usize>, k: nat) -> nat
    decreases k,
{
    if k == 0 {
        0
    } else {
        frame_slots(lengths, (k - 1) as nat) + lengths[k - 1] as nat
    }
}

/// The slots that go when the first `k` frames leave the window: all of theirs, as far as slots are
/// cached.
pub open spec fn slots_leaving(lengths: Seq<usize>, k: nat, active: nat, cached: nat) -> nat {
    let slots = frame_slots(lengths, k);
    if slots <= cached && slots <= active {
        slots
    } else if cached <= active {
        cached
    } else {
        active
    }
}

/// The slots of the frames from `k` on are those of all frames but the first `k`.
proof fn lemma_frame_slots_split(lengths: Seq<usize>, k: nat, n: nat)
    requires
        k + n <= lengths.len(),
    ensures
        frame_slots(lengths, k + n) == frame_slots(lengths, k) + frame_slots(
            lengths.subrange(k as int, lengths.len() as int),
            n,
        ),
    decreases n,
{
    if n > 0 {
        lemma_frame_slots_split(lengths, k, (n - 1) as nat);
        assert(lengths.subrange(k as int, lengths.len() as int)[n - 1] == lengths[k + n - 1]);
    }
}

proof fn lemma_plan_from(
    lengths: Seq<usize>,
    k: nat,
    active: nat,
    cached: nat,
    horizon: nat,
    required: nat,
    capacity: nat,
)
    requires
        k <= lengths.len(),
        horizon >= 1,
    ensures
        ({
            let (frames, slots) = window_plan(
                lengths,
                k,
                slots_leaving(lengths, k, active, cached),
                active,
                cached,
                horizon,
                required,
                capacity,
            );
            &&& k <= frames <= lengths.len()
            &&& slots == slots_leaving(lengths, frames, active, cached)
            &&& lengths.len() - frames < horizon
            &&& frames < lengths.len() ==> active - slots + required <= capacity
            &&& forall|i: nat|
                k <= i < frames ==> lengths.len() - i >= horizon || active
                    - #[trigger] slots_leaving(lengths, i, active, cached) + required > capacity
        }),
    decreases lengths.len() - k,
{
    let dropped = slots_leaving(lengths, k, active, cached);
    if k < lengths.len() && (lengths.len() - k >= horizon || active - dropped + required > capacity) {
        lemma_plan_from(lengths, k + 1, active, cached, horizon, required, capacity);
    }
}

/// Rolling the window drops exactly the slots of the frames that leave it. The oldest frames leave,
/// as few of them as make room: after each frame but the last one that leaves, the window would
/// still hold `horizon` frames or the sequence outgrow `capacity`. Where the cached slots reach that
/// far, the number of slots dropped is the sum of the lengths of the frames that leave, so that the
/// frames that stay keep all their slots.
pub proof fn lemma_roll_drops_leaving_frames(
    lengths: Seq<usize>,
    active: nat,
    cached: nat,
    horizon: nat,
    required: nat,
    capacity: nat,
)
    requires
        horizon >= 1,
    ensures
        ({
            let (frames, slots) = window_plan(
                lengths,
                0,
                0,
                active,
                cached,
                horizon,
                required,
                capacity,
            );
            let kept = lengths.subrange(frames as int, lengths.len() as int);
            &&& frames <= lengths.len()
            &&& slots == slots_leaving(lengths, frames, active, cached)
            &&& kept.len() < horizon
            &&& kept.len() > 0 ==> active - slots + required <= capacity
            &&& forall|i: nat|
                i < frames ==> lengths.len() - i >= horizon || active - #[trigger] slots_leaving(
                    lengths,
                    i,
                    active,
                    cached,
                ) + required > capacity
            &&& frame_slots(lengths, frames) <= cached && frame_slots(lengths, frames) <= active
                ==> {
                &&& slots == frame_slots(lengths, frames)
                &&& frame_slots(lengths, lengths.len()) == slots + frame_slots(kept, kept.len())
                &&& frame_slots(lengths, lengths.len()) == active ==> frame_slots(kept, kept.len())
                    == active - slots
            }
        }),
{
    assert(slots_leaving(lengths, 0, active, cached) == 0);
    lemma_plan_from(lengths, 0, active, cached, horizon, required, capacity);
    let (frames, slots) = window_plan(lengths, 0, 0, active, cached, horizon, required, capacity);
    lemma_frame_slots_split(lengths, frames, (lengths.len() - frames) as nat);
}

/// Between `before` and `after` the oldest frames left the window together with their slots, as many
/// as it took to let a frame of `required` slots enter a window of `horizon` frames.
pub open spec fn rolled_to_fit(
    before: AutoGazeStreamingCacheState,
    after: AutoGazeStreamingCacheState,
    horizon: nat,
    required: nat,
) -> bool {
    let lengths = before.frame_token_lengths@;
    let kept = after.frame_token_lengths@;
    let popped = (lengths.len() - kept.len()) as nat;
    let slots = before.active() - after.active();
    &&& kept.len() <= lengths.len()
    &&& kept == lengths.subrange(popped as int, lengths.len() as int)
    &&& before.past_len - after.past_len == slots
    &&& slots == slots_leaving(lengths, popped, before.active(), before.past_len as nat)
    &&& kept.len() == 0 || kept.len() < horizon
    &&& kept.len() > 0 ==> after.active() + required <= before.cache_capacity || required
        > before.cache_capacity && after.active() == 0
    &&& frame_slots(lengths, lengths.len()) == before.active() && frame_slots(lengths, popped)
        <= before.past_len ==> frame_slots(kept, kept.len()) == after.active()
}

/// The slots that a window of frames may hold: full frames, the generated part counted at least
/// once.
pub open spec fn window_capacity(horizon: nat, vision_tokens: nat, max_tokens: nat) -> nat {
    (max_int(horizon as int, 1) * (vision_tokens + max_int(max_tokens as int, 1))) as nat
}

/// `after` is `before` with the positions of its last frame settled and the vision tokens of a new
/// frame appended.
pub open spec fn frame_appended(
    after: AutoGazeStreamingCacheState,
    before: AutoGazeStreamingCacheState,
) -> bool {
    &&& after.wf()
    &&& after.same_settings(before)
    &&& after.past_len == before.past_len
    &&& after.frame_token_lengths == before.frame_token_lengths
    &&& before.batch > 0 ==> after.active() == before.active() + before.vision_tokens
    &&& forall|b: int|
        0 <= b < before.batch ==> #[trigger] after.row(b) == before.row(
            b,
        ).committed().settled().extended(before.vision_tokens as nat)
}

/// As [`frame_appended`], but the window is made to hold the new frame first: `dropped` slots have
/// left it.
pub open spec fn frame_rolled_in(
    after: AutoGazeStreamingCacheState,
    before: AutoGazeStreamingCacheState,
    horizon: nat,
    dropped: nat,
) -> bool {
    let (frames, slots) = window_plan(
        before.frame_token_lengths@,
        0,
        0,
        before.active(),
        before.past_len as nat,
        max_int(horizon as int, 1) as nat,
        min_int(before.vision_tokens + before.max_tokens, before.cache_capacity as int) as nat,
        before.cache_capacity as nat,
    );
    &&& after.wf()
    &&& after.same_settings(before)
    &&& dropped == slots
    &&& dropped <= before.past_len
    &&& dropped <= before.active()
    &&& after.past_len == before.past_len - dropped
    &&& after.frame_token_lengths@ == before.frame_token_lengths@.subrange(
        frames as int,
        before.frame_token_lengths@.len() as int,
    )
    &&& after.frame_token_lengths@.len() < max_int(horizon as int, 1)
    &&& before.batch > 0 ==> after.active() == before.active() - dropped + before.vision_tokens
    &&& forall|b: int|
        0 <= b < before.batch ==> #[trigger] after.row(b) == before.row(
            b,
        ).committed().settled().dropped(dropped).extended(before.vision_tokens as nat)
}

/// What a decoder needs to know of the sequence for its next step.
#[derive(Clone, Debug)]
pub struct StepInputs {
    /// The first slot that is not cached yet.
    pub query_start: usize,
    /// The slots up to the end of the query.
    pub key_len: usize,
    /// The mask over those slots, where one is needed.
    pub attention_mask: Option<Vec<i64>>,
    /// The positions of the query's slots.
    pub position_ids: PositionIds,
}

/// What a step over the next `query_len` slots of a sequence needs.
pub open spec fn inputs_for(
    inputs: StepInputs,
    state: AutoGazeStreamingCacheState,
    query_len: nat,
) -> bool {
    let key_len = state.past_len + query_len;
    &&& inputs.query_start == state.past_len
    &&& inputs.key_len == key_len
    &&& match inputs.attention_mask {
        Some(values) => !all_marked(state.prefix_attention_mask@, key_len as nat) && values@
            == flattened(
            Seq::new(
                state.batch as nat,
                |b: int| mask_prefix(state.row(b).mask, key_len as nat),
            ),
        ),
        None => all_marked(state.prefix_attention_mask@, key_len as nat),
    }
    &&& inputs.position_ids.values(state.batch as nat) == flattened(
        Seq::new(
            state.batch as nat,
            |b: int| row_slice(state.row(b).positions, state.past_len as int, query_len as int),
        ),
    )
}

/// The state of a decoded sequence between frames.
#[derive(Clone, Debug)]
pub struct AutoGazeStreamingCacheState {
    pub prefix_attention_mask: Vec<Vec<i64>>,
    pub prefix_position_ids: Vec<Vec<i64>>,
    pub pending_position_indices: Vec<Vec<usize>>,
    pub position_offsets: Vec<i64>,
    pub next_position_ids: Vec<i64>,
    pub processed_frames: usize,
    pub batch: usize,
    pub vision_tokens: usize,
    pub dim: usize,
    pub max_tokens: usize,
    pub cache_capacity: usize,
    /// The slots of the frames in the window, oldest first.
    pub frame_token_lengths: VecDeque<usize>,
    /// The slots whose keys and values are cached.
    pub past_len: usize,
    /// The slots that the decoder reads next, where there are any.
    pub pending_query: Option<usize>,
}

impl AutoGazeStreamingCacheState {
    /// The row `b` of the sequence.
    pub open spec fn row(self, b: int) -> SequenceRow {
        SequenceRow {
            mask: self.prefix_attention_mask@[b]@,
            positions: self.prefix_position_ids@[b]@,
            pending: self.pending_position_indices@[b]@,
            offset: self.position_offsets@[b],
            next: self.next_position_ids@[b],
        }
    }

    /// The slots of the sequence.
    pub open spec fn active(self) -> nat {
        if self.batch == 0 {
            0
        } else {
            self.prefix_attention_mask@[0]@.len()
        }
    }

    /// One row of everything for each batch entry, all rows of one length.
    pub open spec fn wf(self) -> bool {
        &&& self.prefix_attention_mask@.len() == self.batch
        &&& self.prefix_position_ids@.len() == self.batch
        &&& self.pending_position_indices@.len() == self.batch
        &&& self.position_offsets@.len() == self.batch
        &&& self.next_position_ids@.len() == self.batch
        &&& forall|b: int|
            0 <= b < self.batch ==> (#[trigger] self.prefix_attention_mask@[b])@.len()
                == self.active()
        &&& forall|b: int|
            0 <= b < self.batch ==> (#[trigger] self.prefix_position_ids@[b])@.len()
                == self.active()
    }

    /// Everything but the rows is as in `other`.
    pub open spec fn same_settings(self, other: AutoGazeStreamingCacheState) -> bool {
        &&& self.batch == other.batch
        &&& self.vision_tokens == other.vision_tokens
        &&& self.dim == other.dim
        &&& self.max_tokens == other.max_tokens
        &&& self.cache_capacity == other.cache_capacity
        &&& self.processed_frames == other.processed_frames
        &&& self.pending_query == other.pending_query
    }

    /// Nothing decoded yet.
    pub open spec fn fresh(self) -> bool {
        &&& self.processed_frames == 0
        &&& self.past_len == 0
        &&& self.pending_query is None
        &&& self.frame_token_lengths@.len() == 0
        &&& forall|b: int| 0 <= b < self.batch ==> #[trigger] self.row(b) == SequenceRow::empty()
    }

    /// An empty sequence.
    pub fn new(
        batch: usize,
        vision_tokens: usize,
        dim: usize,
        max_tokens: usize,
        horizon_frames: usize,
    ) -> (r: AutoGazeStreamingCacheState)
        requires
            window_capacity(
                horizon_frames as nat,
                vision_tokens as nat,
                max_tokens as nat,
            ) <= usize::MAX,
        ensures
            r.wf(),
            r.batch == batch,
            r.vision_tokens == vision_tokens,
            r.dim == dim,
            r.max_tokens == max_tokens,
            r.cache_capacity == window_capacity(
                horizon_frames as nat,
                vision_tokens as nat,
                max_tokens as nat,
            ),
            r.fresh(),
    {
        let mut masks: Vec<Vec<i64>> = Vec::new();
        let mut positions: Vec<Vec<i64>> = Vec::new();
        let mut pending: Vec<Vec<usize>> = Vec::new();
        let mut offsets: Vec<i64> = Vec::new();
        let mut next: Vec<i64> = Vec::new();
        while masks.len() < batch
            invariant
                masks@.len() <= batch,
                positions@.len() == masks@.len(),
                pending@.len() == masks@.len(),
                offsets@.len() == masks@.len(),
                next@.len() == masks@.len(),
                forall|b: int| 0 <= b < masks@.len() ==> (#[trigger] masks@[b])@.len() == 0,
                forall|b: int| 0 <= b < masks@.len() ==> (#[trigger] positions@[b])@.len() == 0,
                forall|b: int| 0 <= b < masks@.len() ==> (#[trigger] pending@[b])@.len() == 0,
                forall|b: int| 0 <= b < masks@.len() ==> #[trigger] offsets@[b] == 0,
                forall|b: int| 0 <= b < masks@.len() ==> #[trigger] next@[b] == 0,
            decreases batch - masks@.len(),
        {
            masks.push(Vec::new());
            positions.push(Vec::new());
            pending.push(Vec::new());
            offsets.push(0);
            next.push(0);
        }
        let frame: usize = {
            proof {
                let h = max_int(horizon_frames as int, 1);
                let f = vision_tokens + max_int(max_tokens as int, 1);
                assert(f <= h * f) by (nonlinear_arith)
                    requires
                        h >= 1,
                        f >= 0,
                ;
            }
            vision_tokens + max_usize(max_tokens, 1)
        };
        let r: AutoGazeStreamingCacheState = AutoGazeStreamingCacheState {
            prefix_attention_mask: masks,
            prefix_position_ids: positions,
            pending_position_indices: pending,
            position_offsets: offsets,
            next_position_ids: next,
            processed_frames: 0,
            batch,
            vision_tokens,
            dim,
            max_tokens,
            cache_capacity: max_usize(horizon_frames, 1) * frame,
            frame_token_lengths: VecDeque::new(),
            past_len: 0,
            pending_query: None,
        };
        proof {
            assert forall|b: int| 0 <= b < batch implies #[trigger] r.row(b)
                == SequenceRow::empty() by {
                assert(r.row(b) =~= SequenceRow::empty());
            }
        }
        r
    }

    /// Whether the sequence was made for these settings.
    pub fn matches(
        &self,
        batch: usize,
        vision_tokens: usize,
        dim: usize,
        max_tokens: usize,
        horizon_frames: usize,
    ) -> (r: bool)
        requires
            window_capacity(
                horizon_frames as nat,
                vision_tokens as nat,
                max_tokens as nat,
            ) <= usize::MAX,
        ensures
            r == (self.batch == batch && self.vision_tokens == vision_tokens && self.dim == dim
                && self.max_tokens == max_tokens && self.cache_capacity == window_capacity(
                horizon_frames as nat,
                vision_tokens as nat,
                max_tokens as nat,
            )),
    {
        proof {
            let h = max_int(horizon_frames as int, 1);
            let f = vision_tokens + max_int(max_tokens as int, 1);
            assert(f <= h * f) by (nonlinear_arith)
                requires
                    h >= 1,
                    f >= 0,
            ;
        }
        let frame: usize = vision_tokens + max_usize(max_tokens, 1);
        self.batch == batch && self.vision_tokens == vision_tokens && self.dim == dim
            && self.max_tokens == max_tokens && self.cache_capacity == max_usize(
            horizon_frames,
            1,
        ) * frame
    }

    /// Whether the sequence can go on with a clip of this shape.
    pub fn matches_runtime(&self, batch: usize, max_tokens: usize, incoming_frames: usize) -> (r:
        bool)
        ensures
            r == (self.batch == batch && self.max_tokens == max_tokens && incoming_frames > 0),
    {
        self.batch == batch && self.max_tokens == max_tokens && incoming_frames > 0
    }

    /// The slots of the sequence.
    pub fn active_sequence_len(&self) -> (r: usize)
        requires
            self.wf(),
        ensures
            r == self.active(),
    {
        if self.prefix_attention_mask.len() > 0 {
            self.prefix_attention_mask[0].len()
        } else {
            0
        }
    }

    /// Gives the pending slots their own positions and finds the next positions.
    pub fn commit_pending_position_ids(&mut self)
        requires
            old(self).wf(),
        ensures
            final(self).wf(),
            final(self).same_settings(*old(self)),
            final(self).past_len == old(self).past_len,
            final(self).frame_token_lengths == old(self).frame_token_lengths,
            final(self).active() == old(self).active(),
            forall|b: int|
                0 <= b < old(self).batch ==> #[trigger] final(self).row(b) == old(self).row(
                    b,
                ).committed(),
    {
        let ghost before = *self;
        commit_pending_position_ids_with_offsets(
            &self.prefix_attention_mask,
            &mut self.prefix_position_ids,
            &self.pending_position_indices,
            &self.position_offsets,
        );
        let mut b: usize = 0;
        while b < self.batch
            invariant
                b <= self.batch,
                before.wf(),
                self.same_settings(before),
                self.past_len == before.past_len,
                self.frame_token_lengths == before.frame_token_lengths,
                self.prefix_attention_mask == before.prefix_attention_mask,
                self.pending_position_indices == before.pending_position_indices,
                self.position_offsets == before.position_offsets,
                self.prefix_position_ids@.len() == self.batch,
                self.next_position_ids@.len() == self.batch,
                forall|c: int|
                    0 <= c < self.batch ==> (#[trigger] self.prefix_position_ids@[c])@
                        == before.row(c).committed().positions,
                forall|c: int|
                    0 <= c < b ==> #[trigger] self.next_position_ids@[c] == before.row(
                        c,
                    ).committed().next,
            decreases self.batch - b,
        {
            let next: i64 = next_valid_position_with_offset(
                &self.prefix_attention_mask[b],
                self.position_offsets[b],
            );
            self.next_position_ids.set(b, next);
            b = b + 1;
        }
        proof {
            assert forall|c: int| 0 <= c < before.batch implies #[trigger] self.row(c)
                == before.row(c).committed() by {
                assert(self.row(c) =~= before.row(c).committed());
            }
            assert forall|c: int| 0 <= c < self.batch implies (
            #[trigger] self.prefix_position_ids@[c])@.len() == self.active() by {
                assert(before.prefix_position_ids@[c]@.len() == before.active());
            }
        }
    }

    /// Forgets which slots were pending.
    pub fn clear_pending_position_indices(&mut self)
        requires
            old(self).wf(),
        ensures
            final(self).wf(),
            final(self).same_settings(*old(self)),
            final(self).past_len == old(self).past_len,
            final(self).frame_token_lengths == old(self).frame_token_lengths,
            final(self).active() == old(self).active(),
            forall|b: int|
                0 <= b < old(self).batch ==> #[trigger] final(self).row(b) == old(self).row(
                    b,
                ).settled(),
    {
        let ghost before = *self;
        let mut cleared: Vec<Vec<usize>> = Vec::new();
        while cleared.len() < self.batch
            invariant
                cleared@.len() <= self.batch,
                *self == before,
                forall|b: int| 0 <= b < cleared@.len() ==> (#[trigger] cleared@[b])@.len() == 0,
            decreases self.batch - cleared@.len(),
        {
            cleared.push(Vec::new());
        }
        self.pending_position_indices = cleared;
        proof {
            assert forall|c: int| 0 <= c < before.batch implies #[trigger] self.row(c)
                == before.row(c).settled() by {
                assert(self.row(c) =~= before.row(c).settled());
            }
        }
    }

    /// Appends the slots of a frame's vision tokens at the next positions.
    pub fn append_frame_positions(&mut self, vision_tokens: usize)
        requires
            old(self).wf(),
        ensures
            final(self).wf(),
            final(self).same_settings(*old(self)),
            final(self).past_len == old(self).past_len,
            final(self).frame_token_lengths == old(self).frame_token_lengths,
            old(self).batch > 0 ==> final(self).active() == old(self).active() + vision_tokens,
            forall|b: int|
                0 <= b < old(self).batch ==> #[trigger] final(self).row(b) == old(self).row(
                    b,
                ).extended(vision_tokens as nat),
    {
        let ghost before = *self;
        let mut b: usize = 0;
        while b < self.batch
            invariant
                b <= self.batch,
                before.wf(),
                self.same_settings(before),
                self.past_len == before.past_len,
                self.frame_token_lengths == before.frame_token_lengths,
                self.prefix_attention_mask@.len() == self.batch,
                self.prefix_position_ids@.len() == self.batch,
                self.pending_position_indices == before.pending_position_indices,
                self.position_offsets == before.position_offsets,
                self.next_position_ids@.len() == self.batch,
                forall|c: int|
                    0 <= c < self.batch ==> #[trigger] self.row(c) == if c < b {
                        before.row(c).extended(vision_tokens as nat)
                    } else {
                        before.row(c)
                    },
            decreases self.batch - b,
        {
            let ghost start = *self;
            let ghost row = before.row(b as int);
            assert(self.row(b as int) == row);
            let mut mask: Vec<i64> = Vec::new();
            let mut positions: Vec<i64> = Vec::new();
            std::mem::swap(&mut mask, &mut self.prefix_attention_mask[b]);
            std::mem::swap(&mut positions, &mut self.prefix_position_ids[b]);
            let mut next: i64 = self.next_position_ids[b];
            let mut i: usize = 0;
            while i < vision_tokens
                invariant
                    i <= vision_tokens,
                    mask@ == row.extended(i as nat).mask,
                    positions@ == row.extended(i as nat).positions,
                    next == row.extended(i as nat).next,
                decreases vision_tokens - i,
            {
                mask.push(1);
                positions.push(next);
                if next < i64::MAX {
                    next = next + 1;
                }
                i = i + 1;
                assert(mask@ =~= row.extended(i as nat).mask);
                assert(positions@ =~= row.extended(i as nat).positions);
            }
            self.prefix_attention_mask.set(b, mask);
            self.prefix_position_ids.set(b, positions);
            self.next_position_ids.set(b, next);
            proof {
                assert forall|c: int| 0 <= c < self.batch implies #[trigger] self.row(c) == if c < b
                    + 1 {
                    before.row(c).extended(vision_tokens as nat)
                } else {
                    before.row(c)
                } by {
                    if c == b {
                        assert(self.row(c) =~= row.extended(vision_tokens as nat));
                    } else {
                        assert(self.row(c) =~= start.row(c));
                    }
                }
            }
            b = b + 1;
        }
        proof {
            assert forall|c: int| 0 <= c < self.batch implies (
            #[trigger] self.prefix_attention_mask@[c])@.len() == before.active()
                + vision_tokens by {
                assert(self.row(c) == before.row(c).extended(vision_tokens as nat));
                assert(before.prefix_attention_mask@[c]@.len() == before.active());
            }
            assert forall|c: int| 0 <= c < self.batch implies (
            #[trigger] self.prefix_position_ids@[c])@.len() == before.active() + vision_tokens by {
                assert(self.row(c) == before.row(c).extended(vision_tokens as nat));
                assert(before.prefix_position_ids@[c]@.len() == before.active());
            }
        }
    }

    /// Drops the oldest slots, at most `token_count`, as far as they are cached, and returns how
    /// many were dropped.
    pub fn drop_oldest_tokens(&mut self, token_count: usize) -> (r: usize)
        requires
            old(self).wf(),
        ensures
            final(self).wf(),
            final(self).same_settings(*old(self)),
            final(self).frame_token_lengths == old(self).frame_token_lengths,
            r == min_int(
                token_count as int,
                min_int(old(self).past_len as int, old(self).active() as int),
            ),
            final(self).past_len == old(self).past_len - r,
            final(self).active() == old(self).active() - r,
            forall|b: int|
                0 <= b < old(self).batch ==> #[trigger] final(self).row(b) == old(self).row(
                    b,
                ).dropped(r as nat),
    {
        let drop: usize = min_usize(
            token_count,
            min_usize(self.past_len, self.active_sequence_len()),
        );
        let ghost before = *self;
        proof {
            assert forall|c: int| 0 <= c < self.batch implies #[trigger] before.row(c).dropped(0)
                == before.row(c) by {
                lemma_dropped_none(before.row(c));
            }
        }
        if drop == 0 {
            return 0;
        }
        let mut b: usize = 0;
        while b < self.batch
            invariant
                b <= self.batch,
                before.wf(),
                drop <= before.active(),
                self.same_settings(before),
                self.past_len == before.past_len,
                self.frame_token_lengths == before.frame_token_lengths,
                self.prefix_attention_mask@.len() == self.batch,
                self.prefix_position_ids@.len() == self.batch,
                self.pending_position_indices@.len() == self.batch,
                self.position_offsets@.len() == self.batch,
                self.next_position_ids == before.next_position_ids,
                forall|c: int|
                    0 <= c < self.batch ==> #[trigger] self.row(c) == if c < b {
                        before.row(c).dropped(drop as nat)
                    } else {
                        before.row(c)
                    },
            decreases self.batch - b,
        {
            let ghost start = *self;
            let ghost row = before.row(b as int);
            assert(self.row(b as int) == row);
            assert(before.prefix_attention_mask@[b as int]@.len() == before.active());
            assert(before.prefix_position_ids@[b as int]@.len() == before.active());
            let mut offset: i64 = self.position_offsets[b];
            let mut i: usize = 0;
            while i < drop
                invariant
                    i <= drop,
                    b < self.prefix_attention_mask@.len(),
                    drop <= self.prefix_attention_mask@[b as int]@.len(),
                    row.mask == self.prefix_attention_mask@[b as int]@,
                    offset == cut_i64(row.offset + valid_count(row.mask, i as nat)),
                decreases drop - i,
            {
                if self.prefix_attention_mask[b][i] != 0 && offset < i64::MAX {
                    offset = offset + 1;
                }
                i = i + 1;
            }
            let mask: Vec<i64> = self.prefix_attention_mask[b].split_off(drop);
            let positions: Vec<i64> = self.prefix_position_ids[b].split_off(drop);
            let pending: Vec<usize> = shift_indices(&self.pending_position_indices[b], drop);
            self.prefix_attention_mask.set(b, mask);
            self.prefix_position_ids.set(b, positions);
            self.pending_position_indices.set(b, pending);
            self.position_offsets.set(b, offset);
            proof {
                assert forall|c: int| 0 <= c < self.batch implies #[trigger] self.row(c) == if c < b
                    + 1 {
                    before.row(c).dropped(drop as nat)
                } else {
                    before.row(c)
                } by {
                    if c == b {
                        assert(self.row(c) =~= row.dropped(drop as nat));
                    } else {
                        assert(self.row(c) =~= start.row(c));
                    }
                }
            }
            b = b + 1;
        }
        let ghost rows_done = *self;
        self.past_len = self.past_len - drop;
        proof {
            assert forall|c: int| 0 <= c < self.batch implies #[trigger] self.row(c) == before.row(
                c,
            ).dropped(drop as nat) by {
                assert(self.row(c) =~= rows_done.row(c));
            }
            assert forall|c: int| 0 <= c < self.batch implies (
            #[trigger] self.prefix_attention_mask@[c])@.len() == before.active() - drop by {
                assert(self.row(c) == before.row(c).dropped(drop as nat));
                assert(before.prefix_attention_mask@[c]@.len() == before.active());
            }
            assert forall|c: int| 0 <= c < self.batch implies (
            #[trigger] self.prefix_position_ids@[c])@.len() == before.active() - drop by {
                assert(self.row(c) == before.row(c).dropped(drop as nat));
                assert(before.prefix_position_ids@[c]@.len() == before.active());
            }
        }
        drop
    }

    /// Pops the oldest frames until a frame of `required_frame_tokens` slots can enter the window,
    /// and returns how many slots were dropped.
    pub fn compact_for_next_frame(
        &mut self,
        required_frame_tokens: usize,
        horizon_frames: usize,
    ) -> (r: usize)
        requires
            old(self).wf(),
        ensures
            final(self).wf(),
            final(self).same_settings(*old(self)),
            ({
                let required = min_int(
                    required_frame_tokens as int,
                    old(self).cache_capacity as int,
                ) as nat;
                let (frames, slots) = window_plan(
                    old(self).frame_token_lengths@,
                    0,
                    0,
                    old(self).active(),
                    old(self).past_len as nat,
                    max_int(horizon_frames as int, 1) as nat,
                    required,
                    old(self).cache_capacity as nat,
                );
                &&& r == slots
                &&& final(self).frame_token_lengths@ == old(self).frame_token_lengths@.subrange(
                    frames as int,
                    old(self).frame_token_lengths@.len() as int,
                )
            }),
            final(self).past_len == old(self).past_len - r,
            final(self).active() == old(self).active() - r,
            final(self).frame_token_lengths@.len() < max_int(horizon_frames as int, 1),
            rolled_to_fit(*old(self), *final(self), horizon_frames as nat, required_frame_tokens as nat),
            forall|b: int|
                0 <= b < old(self).batch ==> #[trigger] final(self).row(b) == old(self).row(
                    b,
                ).dropped(r as nat),
    {
        let horizon: usize = max_usize(horizon_frames, 1);
        let required: usize = min_usize(required_frame_tokens, self.cache_capacity);
        let ghost before = *self;
        let ghost lengths = self.frame_token_lengths@;
        let ghost plan = window_plan(
            lengths,
            0,
            0,
            before.active(),
            before.past_len as nat,
            horizon as nat,
            required as nat,
            before.cache_capacity as nat,
        );
        let mut total: usize = 0;
        let ghost mut k: nat = 0;
        proof {
            assert(lengths =~= lengths.subrange(0, lengths.len() as int));
            assert forall|c: int| 0 <= c < self.batch implies #[trigger] self.row(c) == before.row(
                c,
            ).dropped(0) by {
                lemma_dropped_none(before.row(c));
            }
            lemma_window_plan(
                lengths,
                0,
                0,
                before.active(),
                before.past_len as nat,
                horizon as nat,
                required as nat,
                before.cache_capacity as nat,
            );
        }
        while self.frame_token_lengths.len() > 0 && (self.frame_token_lengths.len() >= horizon
            || required > self.cache_capacity || self.active_sequence_len() > self.cache_capacity
            - required)
            invariant
                before.wf(),
                self.wf(),
                self.same_settings(before),
                required <= before.cache_capacity,
                horizon >= 1,
                k <= lengths.len(),
                self.frame_token_lengths@ == lengths.subrange(k as int, lengths.len() as int),
                total <= before.active(),
                total <= before.past_len,
                self.past_len == before.past_len - total,
                self.active() == before.active() - total,
                forall|c: int|
                    0 <= c < self.batch ==> #[trigger] self.row(c) == before.row(c).dropped(
                        total as nat,
                    ),
                plan == window_plan(
                    lengths,
                    k,
                    total as nat,
                    before.active(),
                    before.past_len as nat,
                    horizon as nat,
                    required as nat,
                    before.cache_capacity as nat,
                ),
            decreases lengths.len() - k,
        {
            let ghost start = *self;
            let count: usize = match self.frame_token_lengths.pop_front() {
                Some(count) => count,
                None => {
                    assert(false);
                    0
                },
            };
            proof {
                assert(count == lengths[k as int]);
                assert(self.frame_token_lengths@ =~= lengths.subrange(
                    (k + 1) as int,
                    lengths.len() as int,
                ));
                assert forall|c: int| 0 <= c < self.batch implies #[trigger] self.row(c)
                    == start.row(c) by {
                    assert(self.row(c) =~= start.row(c));
                }
                assert forall|c: int| 0 <= c < self.batch implies (
                #[trigger] self.prefix_attention_mask@[c])@.len() == self.active() by {
                    assert(start.prefix_attention_mask@[c]@.len() == start.active());
                }
                assert forall|c: int| 0 <= c < self.batch implies (
                #[trigger] self.prefix_position_ids@[c])@.len() == self.active() by {
                    assert(start.prefix_position_ids@[c]@.len() == start.active());
                }
            }
            let ghost middle = *self;
            let dropped: usize = self.drop_oldest_tokens(count);
            proof {
                assert forall|c: int| 0 <= c < self.batch implies #[trigger] self.row(c)
                    == before.row(c).dropped((total + dropped) as nat) by {
                    assert(self.row(c) == middle.row(c).dropped(dropped as nat));
                    assert(middle.row(c) == before.row(c).dropped(total as nat));
                    assert(before.prefix_attention_mask@[c]@.len() == before.active());
                    assert(before.prefix_position_ids@[c]@.len() == before.active());
                    lemma_dropped_twice(before.row(c), total as nat, dropped as nat);
                }
                k = k + 1;
            }
            total = total + dropped;
        }
        proof {
            lemma_roll_drops_leaving_frames(
                lengths,
                before.active(),
                before.past_len as nat,
                horizon as nat,
                required as nat,
                before.cache_capacity as nat,
            );
            lemma_frame_slots_split(lengths, k, (lengths.len() - k) as nat);
        }
        total
    }

    /// Enters a finished frame of `token_count` slots into the window.
    pub fn record_completed_frame(&mut self, token_count: usize)
        requires
            old(self).wf(),
        ensures
            final(self).wf(),
            final(self).frame_token_lengths@ == old(self).frame_token_lengths@.push(token_count),
            final(self).processed_frames == if old(self).processed_frames < usize::MAX {
                (old(self).processed_frames + 1) as usize
            } else {
                usize::MAX
            },
            final(self).past_len == old(self).past_len,
            final(self).active() == old(self).active(),
            final(self).batch == old(self).batch,
            final(self).vision_tokens == old(self).vision_tokens,
            final(self).dim == old(self).dim,
            final(self).max_tokens == old(self).max_tokens,
            final(self).cache_capacity == old(self).cache_capacity,
            final(self).pending_query == old(self).pending_query,
            forall|b: int|
                0 <= b < old(self).batch ==> #[trigger] final(self).row(b) == old(self).row(b),
    {
        let ghost before = *self;
        self.frame_token_lengths.push_back(token_count);
        self.processed_frames = self.processed_frames.saturating_add(1);
        proof {
            assert forall|c: int| 0 <= c < before.batch implies #[trigger] self.row(c)
                == before.row(c) by {
                assert(self.row(c) =~= before.row(c));
            }
            assert forall|c: int| 0 <= c < self.batch implies (
            #[trigger] self.prefix_attention_mask@[c])@.len() == self.active() by {
                assert(before.prefix_attention_mask@[c]@.len() == before.active());
            }
            assert forall|c: int| 0 <= c < self.batch implies (
            #[trigger] self.prefix_position_ids@[c])@.len() == self.active() by {
                assert(before.prefix_position_ids@[c]@.len() == before.active());
            }
        }
    }

    /// What the decoder needs for a step over the next `query_len` slots that are not cached.
    pub fn step_inputs(&self, query_len: usize) -> (r: StepInputs)
        requires
            self.wf(),
            self.past_len + query_len <= usize::MAX,
        ensures
            inputs_for(r, *self, query_len as nat),
    {
        let query_start: usize = self.past_len;
        let key_len: usize = query_start + query_len;
        let attention_mask: Option<Vec<i64>> = attention_mask_tensor_or_none(
            &self.prefix_attention_mask,
            key_len,
        );
        let position_ids: PositionIds = position_ids_slice_tensor_optimized(
            &self.prefix_position_ids,
            query_start,
            query_len,
        );
        proof {
            assert(Seq::new(
                self.batch as nat,
                |b: int| crate::positions::mask_prefix(self.row(b).mask, key_len as nat),
            ) =~= Seq::new(
                self.prefix_attention_mask@.len(),
                |b: int|
                    crate::positions::mask_prefix(
                        self.prefix_attention_mask@[b]@,
                        key_len as nat,
                    ),
            ));
            assert(Seq::new(
                self.batch as nat,
                |b: int|
                    crate::positions::row_slice(
                        self.row(b).positions,
                        query_start as int,
                        query_len as int,
                    ),
            ) =~= Seq::new(
                self.prefix_position_ids@.len(),
                |b: int|
                    crate::positions::row_slice(
                        self.prefix_position_ids@[b]@,
                        query_start as int,
                        query_len as int,
                    ),
            ));
        }
        StepInputs { query_start, key_len, attention_mask, position_ids }
    }

    /// Notes that the decoder has run over the next `query_len` slots.
    pub fn record_forward(&mut self, query_len: usize)
        requires
            old(self).past_len + query_len <= usize::MAX,
        ensures
            *final(self) == (AutoGazeStreamingCacheState {
                past_len: (old(self).past_len + query_len) as usize,
                ..*old(self)
            }),
    {
        self.past_len = self.past_len + query_len;
    }

    /// Begins a frame of a clip that is decoded as a whole: settles the last frame's positions and
    /// appends the new frame's vision tokens.
    pub fn begin_frame(&mut self)
        requires
            old(self).wf(),
        ensures
            frame_appended(*final(self), *old(self)),
    {
        self.commit_pending_position_ids();
        self.clear_pending_position_indices();
        self.append_frame_positions(self.vision_tokens);
    }

    /// Begins a frame of a stream: as [`Self::begin_frame`], but makes room in the window first.
    /// Returns how many slots were dropped from the front.
    pub fn begin_streaming_frame(&mut self, horizon_frames: usize) -> (r: usize)
        requires
            old(self).wf(),
            old(self).vision_tokens + old(self).max_tokens <= usize::MAX,
        ensures
            frame_rolled_in(*final(self), *old(self), horizon_frames as nat, r as nat),
    {
        self.commit_pending_position_ids();
        self.clear_pending_position_indices();
        let dropped: usize = self.compact_for_next_frame(
            self.vision_tokens + self.max_tokens,
            horizon_frames,
        );
        self.append_frame_positions(self.vision_tokens);
        dropped
    }
}

proof fn lemma_dropped_none(row: SequenceRow)
    ensures
        row.dropped(0) == row,
{
    lemma_shift_none(row.pending);
    assert(row.dropped(0) =~= row);
}

proof fn lemma_shift_none(indices: Seq<usize>)
    ensures
        entries_shifted(indices, 0) == indices,
    decreases indices.len(),
{
    if indices.len() > 0 {
        lemma_shift_none(indices.drop_last());
        assert(indices =~= indices.drop_last().push(indices.last()));
    }
}

proof fn lemma_shift_twice(indices: Seq<usize>, a: nat, b: nat)
    ensures
        entries_shifted(entries_shifted(indices, a as int), b as int) == entries_shifted(
            indices,
            (a + b) as int,
        ),
    decreases indices.len(),
{
    if indices.len() > 0 {
        lemma_shift_twice(indices.drop_last(), a, b);
        let once = entries_shifted(indices, a as int);
        if indices.last() >= a {
            assert(once.drop_last() =~= entries_shifted(indices.drop_last(), a as int));
        }
    }
}

proof fn lemma_valid_count_split(mask: Seq<i64>, a: nat, b: nat)
    requires
        a + b <= mask.len(),
    ensures
        valid_count(mask, a + b) == valid_count(mask, a) + valid_count(
            mask.subrange(a as int, mask.len() as int),
            b,
        ),
    decreases b,
{
    if b > 0 {
        lemma_valid_count_split(mask, a, (b - 1) as nat);
    }
}

proof fn lemma_dropped_twice(row: SequenceRow, a: nat, b: nat)
    requires
        a + b <= row.mask.len(),
        a + b <= row.positions.len(),
    ensures
        row.dropped(a).dropped(b) == row.dropped(a + b),
{
    lemma_shift_twice(row.pending, a, b);
    lemma_valid_count_split(row.mask, a, b);
    assert(row.dropped(a).dropped(b) =~= row.dropped(a + b));
}

fn shift_indices(indices: &Vec<usize>, drop: usize) -> (r: Vec<usize>)
    ensures
        r@ == entries_shifted(indices@, drop as int),
{
    let mut kept: Vec<usize> = Vec::new();
    let mut i: usize = 0;
    while i < indices.len()
        invariant
            i <= indices@.len(),
            kept@ == entries_shifted(indices@.take(i as int), drop as int),
        decreases indices@.len() - i,
    {
        assert(indices@.take(i as int + 1).drop_last() =~= indices@.take(i as int));
        if indices[i] >= drop {
            kept.push(indices[i] - drop);
        }
        i = i + 1;
    }
    assert(indices@.take(i as int) =~= indices@);
    kept
}

/// A rolling cache for decoding a video one frame at a time: at most `horizon_frames` past frames
/// are kept.
#[derive(Clone, Debug)]
pub struct AutoGazeStreamingCache {
    pub horizon_frames: usize,
    pub state: Option<AutoGazeStreamingCacheState>,
}

impl AutoGazeStreamingCache {
    /// The horizon is positive, the state is well formed and its window within the horizon.
    pub open spec fn wf(self) -> bool {
        &&& self.horizon_frames >= 1
        &&& self.state matches Some(state) ==> state.wf() && state.frame_token_lengths@.len()
            <= self.horizon_frames
    }

    /// An empty cache; a horizon of zero counts as one.
    pub fn new(horizon_frames: usize) -> (r: AutoGazeStreamingCache)
        ensures
            r.wf(),
            r.horizon_frames == max_int(horizon_frames as int, 1),
            r.state is None,
    {
        AutoGazeStreamingCache { horizon_frames: max_usize(horizon_frames, 1), state: None }
    }

    pub fn horizon_frames(&self) -> (r: usize)
        ensures
            r == self.horizon_frames,
    {
        self.horizon_frames
    }

    /// The frames decoded since the cache was last reset.
    pub fn processed_frames(&self) -> (r: usize)
        ensures
            r == match self.state {
                Some(state) => state.processed_frames,
                None => 0,
            },
    {
        match &self.state {
            Some(state) => state.processed_frames,
            None => 0,
        }
    }

    /// The frames in the window.
    pub fn active_frames(&self) -> (r: usize)
        ensures
            r == match self.state {
                Some(state) => state.frame_token_lengths@.len(),
                None => 0,
            },
            self.wf() ==> r <= self.horizon_frames,
    {
        match &self.state {
            Some(state) => state.frame_token_lengths.len(),
            None => 0,
        }
    }

    /// Forgets everything decoded so far.
    pub fn reset(&mut self)
        ensures
            final(self).state is None,
            final(self).horizon_frames == old(self).horizon_frames,
            old(self).wf() ==> final(self).wf(),
    {
        self.state = None;
    }

    /// Forgets what was decoded where a clip of this shape cannot go on with it. Returns whether
    /// anything is left to go on with.
    pub fn begin_clip(&mut self, batch: usize, max_tokens: usize, frames: usize) -> (r: bool)
        requires
            old(self).wf(),
        ensures
            final(self).wf(),
            final(self).horizon_frames == old(self).horizon_frames,
            r == (old(self).state matches Some(state) && state.batch == batch && state.max_tokens
                == max_tokens && frames > 0),
            final(self).state == if r {
                old(self).state
            } else {
                None
            },
    {
        let keep: bool = match &self.state {
            Some(state) => state.matches_runtime(batch, max_tokens, frames),
            None => false,
        };
        if !keep {
            self.state = None;
        }
        keep
    }

    /// Makes sure that the cache holds a sequence for these settings, a fresh one where what it
    /// holds was made for others. Returns whether what it held was kept.
    pub fn ensure_state(
        &mut self,
        batch: usize,
        vision_tokens: usize,
        dim: usize,
        max_tokens: usize,
    ) -> (r: bool)
        requires
            old(self).wf(),
            window_capacity(
                old(self).horizon_frames as nat,
                vision_tokens as nat,
                max_tokens as nat,
            ) <= usize::MAX,
        ensures
            final(self).wf(),
            final(self).horizon_frames == old(self).horizon_frames,
            r == (old(self).state matches Some(state) && state.batch == batch
                && state.vision_tokens == vision_tokens && state.dim == dim && state.max_tokens
                == max_tokens && state.cache_capacity == window_capacity(
                old(self).horizon_frames as nat,
                vision_tokens as nat,
                max_tokens as nat,
            )),
            r ==> final(self).state == old(self).state,
            final(self).state matches Some(state) && {
                &&& state.batch == batch
                &&& state.vision_tokens == vision_tokens
                &&& state.dim == dim
                &&& state.max_tokens == max_tokens
                &&& state.cache_capacity == window_capacity(
                    old(self).horizon_frames as nat,
                    vision_tokens as nat,
                    max_tokens as nat,
                )
                &&& !r ==> state.fresh()
            },
    {
        let keep: bool = match &self.state {
            Some(state) => state.matches(
                batch,
                vision_tokens,
                dim,
                max_tokens,
                self.horizon_frames,
            ),
            None => false,
        };
        if !keep {
            self.state = Some(
                AutoGazeStreamingCacheState::new(
                    batch,
                    vision_tokens,
                    dim,
                    max_tokens,
                    self.horizon_frames,
                ),
            );
        }
        keep
    }
}

/// While fewer frames than the horizon are kept and the next frame fits, nothing leaves the window:
/// a stream then goes on like a clip that is decoded as a whole.
pub proof fn lemma_window_keeps(
    lengths: Seq<usize>,
    active: nat,
    cached: nat,
    horizon: nat,
    required: nat,
    capacity: nat,
    row: SequenceRow,
)
    requires
        lengths.len() < horizon,
        active + required <= capacity,
    ensures
        window_plan(lengths, 0, 0, active, cached, horizon, required, capacity) == (0nat, 0nat),
        row.dropped(0) == row,
{
    lemma_dropped_none(row);
}

/// Dropping slots that have left the window does not move the position of the next slot: their
/// marks stay counted in the offset.
pub proof fn lemma_drop_keeps_next_position(row: SequenceRow, drop: nat)
    requires
        drop <= row.mask.len(),
        row.mask.len() == row.positions.len(),
        0 <= row.offset,
    ensures
        row.dropped(drop).committed().next == row.committed().next,
        row.dropped(drop).next == row.next,
{
    lemma_valid_count_split(row.mask, drop, (row.mask.len() - drop) as nat);
}

/// A row that never dropped a slot takes the count of its marked slots as its next position.
pub proof fn lemma_next_position_counts(row: SequenceRow, n: nat, i: int)
    requires
        row.offset == 0,
        row.mask.len() == row.positions.len(),
        row.mask.len() + n <= i64::MAX,
        0 <= i < n,
    ensures
        row.committed().settled().extended(n).positions[row.positions.len() + i] == valid_count(
            row.mask,
            row.mask.len(),
        ) + i,
{
    lemma_valid_count_len(row.mask, row.mask.len());
}

proof fn lemma_valid_count_len(mask: Seq<i64>, k: nat)
    ensures
        valid_count(mask, k) <= k,
    decreases k,
{
    if k > 0 {
        lemma_valid_count_len(mask, (k - 1) as nat);
    }
}

/// While the window has room, a stream does to the sequence what decoding the clip as a whole does.
pub proof fn lemma_stream_within_window(
    after: AutoGazeStreamingCacheState,
    before: AutoGazeStreamingCacheState,
    horizon: nat,
    dropped: nat,
)
    requires
        before.wf(),
        frame_rolled_in(after, before, horizon, dropped),
        before.frame_token_lengths@.len() < max_int(horizon as int, 1),
        before.active() + before.vision_tokens + before.max_tokens <= before.cache_capacity,
    ensures
        dropped == 0,
        after.past_len == before.past_len,
        before.batch > 0 ==> after.active() == before.active() + before.vision_tokens,
        after.frame_token_lengths@ == before.frame_token_lengths@,
        forall|b: int|
            0 <= b < before.batch ==> #[trigger] after.row(b) == before.row(
                b,
            ).committed().settled().extended(before.vision_tokens as nat),
{
    assert forall|b: int| 0 <= b < before.batch implies #[trigger] after.row(b) == before.row(
        b,
    ).committed().settled().extended(before.vision_tokens as nat) by {
        lemma_dropped_none(before.row(b).committed().settled());
    }
    assert(after.frame_token_lengths@ =~= before.frame_token_lengths@);
}

/// A frame that is rolled in leaves the frames that stay in the window all their slots: where the
/// window held exactly its frames and the cached slots reach that far, it holds exactly the frames
/// kept and the vision tokens of the new one.
pub proof fn lemma_roll_in_keeps_frames(
    after: AutoGazeStreamingCacheState,
    before: AutoGazeStreamingCacheState,
    horizon: nat,
    dropped: nat,
)
    requires
        before.wf(),
        before.batch > 0,
        frame_rolled_in(after, before, horizon, dropped),
    ensures
        ({
            let lengths = before.frame_token_lengths@;
            let kept = after.frame_token_lengths@;
            let popped = (lengths.len() - kept.len()) as nat;
            &&& kept.len() <= lengths.len()
            &&& kept == lengths.subrange(popped as int, lengths.len() as int)
            &&& dropped == slots_leaving(lengths, popped, before.active(), before.past_len as nat)
            &&& frame_slots(lengths, lengths.len()) == before.active() && frame_slots(
                lengths,
                popped,
            ) <= before.past_len ==> frame_slots(kept, kept.len()) + before.vision_tokens
                == after.active()
        }),
{
    let lengths = before.frame_token_lengths@;
    let kept = after.frame_token_lengths@;
    let popped = (lengths.len() - kept.len()) as nat;
    lemma_roll_drops_leaving_frames(
        lengths,
        before.active(),
        before.past_len as nat,
        max_int(horizon as int, 1) as nat,
        min_int(before.vision_tokens + before.max_tokens, before.cache_capacity as int) as nat,
        before.cache_capacity as nat,
    );
    lemma_frame_slots_split(lengths, popped, kept.len());
}

/// The pending slots that stay are those behind the slots dropped, each counted from there.
pub proof fn lemma_entries_shifted(indices: Seq<usize>, drop: nat, idx: nat)
    requires
        idx + drop <= usize::MAX,
    ensures
        entries_shifted(indices, drop as int).contains(idx as usize) <==> indices.contains(
            (idx + drop) as usize,
        ),
    decreases indices.len(),
{
    if indices.len() > 0 {
        let (rest, last) = (indices.drop_last(), indices.last());
        lemma_entries_shifted(rest, drop, idx);
        let kept = entries_shifted(rest, drop as int);
        let all = entries_shifted(indices, drop as int);
        let (a, b) = (idx as usize, (idx + drop) as usize);
        if kept.contains(a) {
            let j = choose|j: int| 0 <= j < kept.len() && kept[j] == a;
            assert(all[j] == a);
        }
        if rest.contains(b) {
            let j = choose|j: int| 0 <= j < rest.len() && rest[j] == b;
            assert(indices[j] == b);
        }
        if last >= drop {
            assert(all[kept.len() as int] == (last - drop) as usize);
        }
        assert(indices[indices.len() - 1] == last);
        if all.contains(a) {
            let j = choose|j: int| 0 <= j < all.len() && all[j] == a;
            if j < kept.len() {
                assert(kept[j] == a);
            }
        }
        if indices.contains(b) {
            let j = choose|j: int| 0 <= j < indices.len() && indices[j] == b;
            if j < rest.len() {
                assert(rest[j] == b);
            }
        }
    }
}

/// The window has room for `horizon` full frames: while it holds fewer, none of them larger than its
/// vision tokens and its budget, another full frame fits, and nothing leaves.
pub proof fn lemma_window_holds_horizon(
    lengths: Seq<usize>,
    cached: nat,
    horizon: nat,
    vision_tokens: nat,
    max_tokens: nat,
)
    requires
        0 < lengths.len() + 1 <= horizon,
        max_tokens > 0,
        forall|i: int|
            0 <= i < lengths.len() ==> #[trigger] lengths[i] <= vision_tokens + max_tokens,
    ensures
        ({
            let active = frame_slots(lengths, lengths.len());
            let required = vision_tokens + max_tokens;
            let capacity = window_capacity(horizon, vision_tokens, max_tokens);
            &&& active + required <= capacity
            &&& window_plan(lengths, 0, 0, active, cached, horizon, required, capacity) == (
                0nat,
                0nat,
            )
        }),
{
    let full = vision_tokens + max_tokens;
    lemma_frames_at_most(lengths, lengths.len(), full);
    let n = lengths.len();
    assert(n * full + full <= horizon * full) by (nonlinear_arith)
        requires
            n + 1 <= horizon,
    ;
}

proof fn lemma_frames_at_most(lengths: Seq<usize>, k: nat, full: nat)
    requires
        k <= lengths.len(),
        forall|i: int| 0 <= i < lengths.len() ==> #[trigger] lengths[i] <= full,
    ensures
        frame_slots(lengths, k) <= k * full,
    decreases k,
{
    if k > 0 {
        lemma_frames_at_most(lengths, (k - 1) as nat, full);
        assert(lengths[k - 1] <= full);
        let m = (k - 1) as nat;
        assert(m * full + full == k * full) by (nonlinear_arith)
            requires
                k == m + 1,
        ;
    }
}

/// A step reads the slots that follow the cached ones: the position of a slot of the query is the
/// one that the sequence has there, and a slot up to its end is marked exactly where the sequence
/// marks it.
#[verifier::rlimit(40)]
pub proof fn lemma_step_reads_slots(
    inputs: StepInputs,
    state: AutoGazeStreamingCacheState,
    query_len: nat,
    b: int,
    i: int,
)
    requires
        state.wf(),
        inputs_for(inputs, state, query_len),
        state.past_len + query_len <= state.active(),
        0 <= b < state.batch,
        0 <= i < state.past_len + query_len,
    ensures
        ({
            let key_len = (state.past_len + query_len) as int;
            let row = state.row(b);
            let ids = inputs.position_ids.values(state.batch as nat);
            &&& inputs.attention_mask matches Some(values) ==> values@.len() == state.batch * key_len
                && 0 <= b * key_len + i < values@.len() && values@[b * key_len + i] == row.mask[i]
            &&& inputs.attention_mask is None ==> row.mask[i] != 0
            &&& ids.len() == state.batch * query_len
            &&& i < query_len ==> 0 <= b * query_len + i < ids.len() && ids[b * query_len + i]
                == row.positions[state.past_len + i]
        }),
{
    let key_len = (state.past_len + query_len) as nat;
    let n = state.batch as nat;
    assert(state.prefix_attention_mask@[b]@.len() == state.active());
    assert(state.prefix_position_ids@[b]@.len() == state.active());
    match inputs.attention_mask {
        Some(values) => {
            let rows = Seq::new(n, |c: int| mask_prefix(state.row(c).mask, key_len));
            lemma_flattened_at(rows, key_len, b, i);
        },
        None => {
            assert(row_marked(state.prefix_attention_mask@[b]@, key_len));
        },
    }
    let slices = Seq::new(
        n,
        |c: int| row_slice(state.row(c).positions, state.past_len as int, query_len as int),
    );
    assert forall|c: int| 0 <= c < slices.len() implies (#[trigger] slices[c]).len()
        == query_len by {
        assert(state.prefix_position_ids@[c]@.len() == state.active());
    }
    lemma_flattened_len(slices, query_len);
    if i < query_len {
        lemma_flattened_at(slices, query_len, b, i);
    }
}

} // verus!
