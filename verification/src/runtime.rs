//! Admission and ordering rules for realtime streams.
//!
//! Every inference task reserves a sequence number before it starts; a result is applied only if
//! it is newer than all results applied before.
use crate::ieee::Binary32;
use crate::tiles::AutoGazeInferenceMode;
use vstd::prelude::*;

verus! {

/// Stands for the model's own generation budget.
pub const DEFAULT_MODEL_GENERATION_BUDGET: usize = 0;

/// Fixations shown by realtime streams.
pub const DEFAULT_REALTIME_TOP_K: usize = 10;

/// Fixations shown per tile in tiled modes.
pub const DEFAULT_TILED_TOP_K: usize = 2;

/// Tokens generated per frame in tiled modes.
pub const DEFAULT_TILED_MAX_GAZE_TOKENS: usize = 24;

/// Frames kept in realtime windows.
pub const DEFAULT_REALTIME_FRAMES_PER_CLIP: usize = 2;

/// Realtime tasks in flight at once.
pub const DEFAULT_MAX_IN_FLIGHT: usize = 1;

/// Frames kept in tiled windows.
pub const DEFAULT_TILED_FRAMES_PER_CLIP: usize = 2;

/// Tiles run through the model at once.
pub const DEFAULT_TILED_TILE_BATCH_SIZE: usize = 64;

/// Frames between keyframes.
pub const DEFAULT_KEYFRAME_DURATION: usize = 30;

/// The bits of the default overlay opacity, 0.38.
pub const DEFAULT_BLEND_ALPHA_BITS: u32 = 0x3ec2_8f5c;

/// The default opacity of mask overlays.
pub fn default_blend_alpha() -> (r: Binary32)
    ensures
        r.bits == DEFAULT_BLEND_ALPHA_BITS,
{
    Binary32::from_bits(DEFAULT_BLEND_ALPHA_BITS)
}

/// Hands out sequence numbers and rejects results that come too late.
#[derive(Clone, Copy, Debug, PartialEq, Eq, Structural)]
pub struct AutoGazeInferenceSequencer {
    next_sequence: u64,
    latest_applied_sequence: u64,
}

impl Default for AutoGazeInferenceSequencer {
    fn default() -> (r: AutoGazeInferenceSequencer)
        ensures
            r.reserved() == 0,
            r.applied() == 0,
    {
        AutoGazeInferenceSequencer { next_sequence: 0, latest_applied_sequence: 0 }
    }
}

impl AutoGazeInferenceSequencer {
    /// The number reserved last.
    pub closed spec fn reserved(self) -> u64 {
        self.next_sequence
    }

    /// The number of the result applied last.
    pub closed spec fn applied(self) -> u64 {
        self.latest_applied_sequence
    }

    /// Reserves the next number; the largest one is handed out again and again.
    pub fn reserve(&mut self) -> (r: u64)
        ensures
            r == (if old(self).reserved() < u64::MAX {
                old(self).reserved() + 1
            } else {
                u64::MAX as int
            }),
            final(self).reserved() == r,
            final(self).applied() == old(self).applied(),
    {
        if self.next_sequence < u64::MAX {
            self.next_sequence = self.next_sequence + 1;
        }
        self.next_sequence
    }

    /// Applies a result unless it is stale, and says whether it was applied.
    pub fn accept(&mut self, sequence: u64) -> (r: bool)
        ensures
            r == (sequence > old(self).applied()),
            final(self).applied() == (if r {
                sequence
            } else {
                old(self).applied()
            }),
            final(self).reserved() == old(self).reserved(),
    {
        if self.is_stale(sequence) {
            return false;
        }
        self.latest_applied_sequence = sequence;
        true
    }

    /// Whether a result is no newer than the one applied last.
    pub fn is_stale(&self, sequence: u64) -> (r: bool)
        ensures
            r == (sequence <= self.applied()),
    {
        sequence <= self.latest_applied_sequence
    }

    pub fn next_sequence(&self) -> (r: u64)
        ensures
            r == self.reserved(),
    {
        self.next_sequence
    }

    pub fn latest_applied_sequence(&self) -> (r: u64)
        ensures
            r == self.applied(),
    {
        self.latest_applied_sequence
    }
}

/// The number applied last after the results `arrived` came in, in that order.
pub open spec fn applied_after(start: u64, arrived: Seq<u64>) -> u64
    decreases arrived.len(),
{
    if arrived.len() == 0 {
        start
    } else {
        let before = applied_after(start, arrived.drop_last());
        if arrived.last() > before {
            arrived.last()
        } else {
            before
        }
    }
}

/// However results arrive, what is applied in the end is the newest of them, and nothing that
/// arrives after a newer result is applied.
pub proof fn lemma_newest_result_stays(start: u64, arrived: Seq<u64>)
    ensures
        applied_after(start, arrived) >= start,
        forall|i: int| 0 <= i < arrived.len() ==> applied_after(start, arrived) >= #[trigger] arrived[i],
        applied_after(start, arrived) == start || arrived.contains(applied_after(start, arrived)),
    decreases arrived.len(),
{
    if arrived.len() > 0 {
        let before = arrived.drop_last();
        lemma_newest_result_stays(start, before);
        assert forall|i: int| 0 <= i < arrived.len() implies applied_after(start, arrived)
            >= #[trigger] arrived[i] by {
            if i < before.len() {
                assert(before[i] == arrived[i]);
            }
        }
        if arrived.last() > applied_after(start, before) {
            assert(arrived[arrived.len() - 1] == applied_after(start, arrived));
        } else if applied_after(start, before) != start {
            let j = choose|j: int|
                0 <= j < before.len() && before[j] == applied_after(start, before);
            assert(arrived[j] == applied_after(start, arrived));
        }
    }
}

/// How many inference tasks may run at once, and what is drawn meanwhile.
#[derive(Clone, Copy, Debug, PartialEq, Eq, Structural)]
pub struct AutoGazeRealtimePolicy {
    max_in_flight: usize,
}

impl Default for AutoGazeRealtimePolicy {
    fn default() -> (r: AutoGazeRealtimePolicy)
        ensures
            r.limit() == DEFAULT_MAX_IN_FLIGHT,
    {
        AutoGazeRealtimePolicy::new(DEFAULT_MAX_IN_FLIGHT)
    }
}

impl AutoGazeRealtimePolicy {
    /// The largest number of tasks in flight.
    pub closed spec fn limit(self) -> usize {
        self.max_in_flight
    }

    /// A policy with the given limit; zero stands for the default.
    pub fn new(max_in_flight: usize) -> (r: AutoGazeRealtimePolicy)
        ensures
            r.limit() == (if max_in_flight == 0 {
                DEFAULT_MAX_IN_FLIGHT
            } else {
                max_in_flight
            }),
    {
        AutoGazeRealtimePolicy {
            max_in_flight: if max_in_flight == 0 {
                DEFAULT_MAX_IN_FLIGHT
            } else {
                max_in_flight
            },
        }
    }

    pub fn max_in_flight(&self) -> (r: usize)
        ensures
            r == self.limit(),
    {
        self.max_in_flight
    }

    /// Whether no more tasks may start.
    pub fn inference_busy(&self, in_flight: usize) -> (r: bool)
        ensures
            r == (in_flight >= self.limit()),
    {
        in_flight >= self.max_in_flight
    }

    /// Whether another task may start.
    pub fn should_start_inference(&self, in_flight: usize) -> (r: bool)
        ensures
            r == (in_flight < self.limit()),
    {
        !self.inference_busy(in_flight)
    }

    /// Whether the unprocessed input is drawn: only until the model is ready.
    pub fn should_draw_live_preview(&self, model_ready: bool) -> (r: bool)
        ensures
            r == !model_ready,
    {
        !model_ready
    }

    /// Whether the stream is drawn while tasks run: always.
    pub fn should_draw_async_stream_preview(&self, _model_ready: bool, _in_flight: usize) -> (r:
        bool)
        ensures
            r,
    {
        true
    }
}

/// Whether frames go through the streaming cache: only in windows of several frames that are
/// resized as a whole.
pub fn should_use_streaming_cache(
    enabled: bool,
    frames_per_clip: usize,
    mode: AutoGazeInferenceMode,
) -> (r: bool)
    ensures
        r == (enabled && frames_per_clip > 1 && mode is ResizeToModelInput),
{
    match mode {
        AutoGazeInferenceMode::ResizeToModelInput => enabled && frames_per_clip > 1,
        _ => false,
    }
}

} // verus!
