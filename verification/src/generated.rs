//! Generated gaze tokens and what they decode to.
use crate::config::AutoGazeConfig;
use crate::ieee::Binary32;
use crate::layout::{
    layouts_fit, layouts_of, lemma_scale_of, scale_of, scale_token_index, scale_token_layouts,
    token_point, token_to_fixation_point, tokens_before, AutoGazeScaleTokenLayout,
};
use crate::trace::{
    at_least_one, padded_points, single, unit_clamped, FixationPoint, FixationSet,
    FrameFixationTrace, ONE_BITS, ZERO_BITS,
};
use vstd::prelude::*;

verus! {

/// The tokens generated for a clip: for each batch row the tokens of all frames end to end, offset
/// frame by frame, with their padding marks and confidences, and the number of slots of each frame.
#[derive(Clone, Debug)]
pub struct AutoGazeGenerateOutput {
    pub gazing_pos: Vec<Vec<i64>>,
    pub num_gazing_each_frame: Vec<usize>,
    pub if_padded_gazing: Vec<Vec<bool>>,
    pub confidences: Vec<Vec<Binary32>>,
}

impl AutoGazeGenerateOutput {
    /// One row of everything for each batch entry.
    pub open spec fn rows(self, batch: nat) -> bool {
        &&& self.gazing_pos@.len() == batch
        &&& self.if_padded_gazing@.len() == batch
        &&& self.confidences@.len() == batch
    }

    /// No frames yet.
    pub fn empty(batch: usize) -> (r: AutoGazeGenerateOutput)
        ensures
            r.rows(batch as nat),
            r.num_gazing_each_frame@.len() == 0,
            forall|b: int| 0 <= b < batch ==> (#[trigger] r.gazing_pos@[b])@.len() == 0,
            forall|b: int| 0 <= b < batch ==> (#[trigger] r.if_padded_gazing@[b])@.len() == 0,
            forall|b: int| 0 <= b < batch ==> (#[trigger] r.confidences@[b])@.len() == 0,
    {
        let mut gazing_pos: Vec<Vec<i64>> = Vec::new();
        let mut if_padded_gazing: Vec<Vec<bool>> = Vec::new();
        let mut confidences: Vec<Vec<Binary32>> = Vec::new();
        while gazing_pos.len() < batch
            invariant
                gazing_pos@.len() <= batch,
                if_padded_gazing@.len() == gazing_pos@.len(),
                confidences@.len() == gazing_pos@.len(),
                forall|b: int|
                    0 <= b < gazing_pos@.len() ==> (#[trigger] gazing_pos@[b])@.len() == 0,
                forall|b: int|
                    0 <= b < gazing_pos@.len() ==> (#[trigger] if_padded_gazing@[b])@.len() == 0,
                forall|b: int|
                    0 <= b < gazing_pos@.len() ==> (#[trigger] confidences@[b])@.len() == 0,
            decreases batch - gazing_pos@.len(),
        {
            gazing_pos.push(Vec::new());
            if_padded_gazing.push(Vec::new());
            confidences.push(Vec::new());
        }
        AutoGazeGenerateOutput {
            gazing_pos,
            num_gazing_each_frame: Vec::new(),
            if_padded_gazing,
            confidences,
        }
    }
}

/// The fixations that a frame's tokens decode to, and whether the frame ended early.
#[derive(Clone, Debug)]
pub struct GeneratedFrameFixations {
    pub points: Vec<FixationPoint>,
    pub stop_probability: Binary32,
}

/// Which tokens of one scale were generated, frame by frame.
#[derive(Clone, Debug, PartialEq, Eq)]
pub struct AutoGazeScaleTokenMask {
    pub grid: usize,
    pub token_count: usize,
    pub frames: Vec<Vec<bool>>,
}

impl AutoGazeGenerateOutput {
    /// Every row has one slot of everything for each token of each frame.
    pub open spec fn lined_up(self, batch: nat) -> bool {
        let slots = slots_before(
            self.num_gazing_each_frame@,
            self.num_gazing_each_frame@.len(),
        );
        &&& self.rows(batch)
        &&& forall|b: int| 0 <= b < batch ==> (#[trigger] self.gazing_pos@[b])@.len() == slots
        &&& forall|b: int|
            0 <= b < batch ==> (#[trigger] self.if_padded_gazing@[b])@.len() == slots
        &&& forall|b: int| 0 <= b < batch ==> (#[trigger] self.confidences@[b])@.len() == slots
    }
}

/// The slots of the first `k` frames.
pub open spec fn slots_before(num_gazing: Seq<usize>, k: nat) -> nat
    decreases k,
{
    if k == 0 {
        0
    } else {
        slots_before(num_gazing, (k - 1) as nat) + num_gazing[k - 1] as nat
    }
}

/// The slots of the first frames do not depend on later frames.
pub(crate) proof fn lemma_slots_prefix(num_gazing: Seq<usize>, more: Seq<usize>, k: nat)
    requires
        k <= num_gazing.len(),
        k <= more.len(),
        forall|i: int| 0 <= i < k ==> num_gazing[i] == more[i],
    ensures
        slots_before(num_gazing, k) == slots_before(more, k),
    decreases k,
{
    if k > 0 {
        lemma_slots_prefix(num_gazing, more, (k - 1) as nat);
    }
}

proof fn lemma_slots_monotone(num_gazing: Seq<usize>, i: nat, j: nat)
    requires
        i <= j <= num_gazing.len(),
    ensures
        slots_before(num_gazing, i) <= slots_before(num_gazing, j),
    decreases j,
{
    if i < j {
        lemma_slots_monotone(num_gazing, i, (j - 1) as nat);
    }
}

impl AutoGazeGenerateOutput {
    /// The raw token in slot `slot` of row `b`.
    pub open spec fn raw_token(self, b: int, slot: int) -> Option<i64> {
        if 0 <= b < self.gazing_pos@.len() && 0 <= slot < self.gazing_pos@[b]@.len() {
            Some(self.gazing_pos@[b]@[slot])
        } else {
            None
        }
    }

    /// The slot is padding; slots without a mark are.
    pub open spec fn slot_padded(self, b: int, slot: int) -> bool {
        if 0 <= b < self.if_padded_gazing@.len() && 0 <= slot < self.if_padded_gazing@[b]@.len() {
            self.if_padded_gazing@[b]@[slot]
        } else {
            true
        }
    }

    /// The confidence of the slot; one where there is none.
    pub open spec fn slot_confidence(self, b: int, slot: int) -> Binary32 {
        if 0 <= b < self.confidences@.len() && 0 <= slot < self.confidences@[b]@.len() {
            self.confidences@[b]@[slot]
        } else {
            single(ONE_BITS)
        }
    }

    /// The token of frame `frame` in slot `slot`, where there is one that is not padding.
    pub open spec fn frame_token(self, per_frame: nat, b: int, frame: int, slot: int) -> Option<
        nat,
    > {
        match self.raw_token(b, slot) {
            Some(raw) => if !self.slot_padded(b, slot) && raw - frame * per_frame >= 0 {
                Some((raw - frame * per_frame) as nat)
            } else {
                None
            },
            None => None,
        }
    }

    /// The point of a slot.
    pub open spec fn slot_point(
        self,
        layouts: Seq<AutoGazeScaleTokenLayout>,
        per_frame: nat,
        b: int,
        frame: int,
        slot: int,
    ) -> Option<FixationPoint> {
        match self.frame_token(per_frame, b, frame, slot) {
            Some(token) => token_point(
                token as usize as nat,
                layouts,
                self.slot_confidence(b, slot),
            ),
            None => None,
        }
    }

    /// The points of the first `n` slots from `cursor` on, in order.
    pub open spec fn points_of(
        self,
        layouts: Seq<AutoGazeScaleTokenLayout>,
        per_frame: nat,
        b: int,
        frame: int,
        cursor: int,
        n: nat,
    ) -> Seq<FixationPoint>
        decreases n,
    {
        if n == 0 {
            Seq::empty()
        } else {
            let before = self.points_of(layouts, per_frame, b, frame, cursor, (n - 1) as nat);
            match self.slot_point(layouts, per_frame, b, frame, cursor + n - 1) {
                Some(point) => before.push(point),
                None => before,
            }
        }
    }

    /// One of the first `n` slots from `cursor` on holds padding.
    pub open spec fn holds_padding(self, b: int, cursor: int, n: nat) -> bool {
        exists|i: int|
            cursor <= i < cursor + n && (#[trigger] self.raw_token(b, i)) is Some
                && self.slot_padded(b, i)
    }

    /// Where frame `frame` starts.
    pub open spec fn cursor(self, frame: int) -> int {
        slots_before(self.num_gazing_each_frame@, frame as nat) as int
    }

    /// The points of a frame.
    pub open spec fn frame_points(
        self,
        layouts: Seq<AutoGazeScaleTokenLayout>,
        per_frame: nat,
        b: int,
        frame: int,
    ) -> Seq<FixationPoint> {
        self.points_of(
            layouts,
            per_frame,
            b,
            frame,
            self.cursor(frame),
            self.num_gazing_each_frame@[frame] as nat,
        )
    }

    /// One where the frame holds padding, else zero.
    pub open spec fn frame_stop(self, b: int, frame: int) -> Binary32 {
        if self.holds_padding(
            b,
            self.cursor(frame),
            self.num_gazing_each_frame@[frame] as nat,
        ) {
            single(ONE_BITS)
        } else {
            single(ZERO_BITS)
        }
    }

    /// All slots and all frame offsets can be counted.
    pub open spec fn countable(self, per_frame: nat) -> bool {
        &&& slots_before(self.num_gazing_each_frame@, self.num_gazing_each_frame@.len())
            <= usize::MAX
        &&& self.num_gazing_each_frame@.len() * per_frame <= i64::MAX
        &&& self.num_gazing_each_frame@.len() * per_frame <= usize::MAX
    }

    fn raw_at(&self, b: usize, slot: usize) -> (r: Option<i64>)
        ensures
            r == self.raw_token(b as int, slot as int),
    {
        if b < self.gazing_pos.len() && slot < self.gazing_pos[b].len() {
            Some(self.gazing_pos[b][slot])
        } else {
            None
        }
    }

    fn padded_at(&self, b: usize, slot: usize) -> (r: bool)
        ensures
            r == self.slot_padded(b as int, slot as int),
    {
        if b < self.if_padded_gazing.len() && slot < self.if_padded_gazing[b].len() {
            self.if_padded_gazing[b][slot]
        } else {
            true
        }
    }

    fn confidence_at(&self, b: usize, slot: usize) -> (r: Binary32)
        ensures
            r == self.slot_confidence(b as int, slot as int),
    {
        if b < self.confidences.len() && slot < self.confidences[b].len() {
            self.confidences[b][slot]
        } else {
            single(ONE_BITS)
        }
    }

    /// The token of a frame in a slot.
    fn token_at(&self, per_frame: usize, b: usize, frame: usize, slot: usize) -> (r: Option<i64>)
        requires
            frame * per_frame <= i64::MAX,
            frame * per_frame <= usize::MAX,
        ensures
            match self.frame_token(per_frame as nat, b as int, frame as int, slot as int) {
                Some(token) => r == Some(token as i64) && token <= i64::MAX,
                None => r is None,
            },
    {
        match self.raw_at(b, slot) {
            Some(raw) => if self.padded_at(b, slot) {
                None
            } else {
                let offset: i128 = (frame * per_frame) as i128;
                let token: i128 = raw as i128 - offset;
                if token < 0 {
                    None
                } else {
                    Some(token as i64)
                }
            },
            None => None,
        }
    }

    fn frame_fixations_from_layouts(
        &self,
        per_frame: usize,
        b: usize,
        frame: usize,
        cursor: usize,
        frame_len: usize,
        layouts: &[AutoGazeScaleTokenLayout],
    ) -> (r: GeneratedFrameFixations)
        requires
            cursor + frame_len <= usize::MAX,
            frame * per_frame <= i64::MAX,
            frame * per_frame <= usize::MAX,
        ensures
            r.points@ == self.points_of(
                layouts@,
                per_frame as nat,
                b as int,
                frame as int,
                cursor as int,
                frame_len as nat,
            ),
            r.stop_probability == if self.holds_padding(
                b as int,
                cursor as int,
                frame_len as nat,
            ) {
                single(ONE_BITS)
            } else {
                single(ZERO_BITS)
            },
    {
        let mut points: Vec<FixationPoint> = Vec::new();
        let mut stopped: bool = false;
        let mut i: usize = 0;
        while i < frame_len
            invariant
                i <= frame_len,
                cursor + frame_len <= usize::MAX,
                frame * per_frame <= i64::MAX,
                frame * per_frame <= usize::MAX,
                points@ == self.points_of(
                    layouts@,
                    per_frame as nat,
                    b as int,
                    frame as int,
                    cursor as int,
                    i as nat,
                ),
                stopped == self.holds_padding(b as int, cursor as int, i as nat),
            decreases frame_len - i,
        {
            let slot: usize = cursor + i;
            let ghost before = self.holds_padding(b as int, cursor as int, i as nat);
            if self.raw_at(b, slot).is_some() && self.padded_at(b, slot) {
                stopped = true;
                assert(self.raw_token(b as int, slot as int) is Some);
                assert(self.holds_padding(b as int, cursor as int, (i + 1) as nat));
            } else {
                proof {
                    if self.holds_padding(b as int, cursor as int, (i + 1) as nat) {
                        let w = choose|k: int|
                            cursor <= k < cursor + (i + 1) && (#[trigger] self.raw_token(
                                b as int,
                                k,
                            )) is Some && self.slot_padded(b as int, k);
                        assert(w != slot);
                        assert(before);
                    }
                    if before {
                        let w = choose|k: int|
                            cursor <= k < cursor + i && (#[trigger] self.raw_token(
                                b as int,
                                k,
                            )) is Some && self.slot_padded(b as int, k);
                        assert(self.raw_token(b as int, w) is Some);
                        assert(self.holds_padding(b as int, cursor as int, (i + 1) as nat));
                    }
                }
                if let Some(token) = self.token_at(per_frame, b, frame, slot) {
                    if let Some(point) = token_to_fixation_point(
                        token as usize,
                        layouts,
                        self.confidence_at(b, slot),
                    ) {
                        points.push(point);
                    }
                }
            }
            i = i + 1;
        }
        let stop_probability: Binary32 = if stopped {
            single(ONE_BITS)
        } else {
            single(ZERO_BITS)
        };
        GeneratedFrameFixations { points, stop_probability }
    }

    /// The fixation traces of all rows, each frame with at least `min_points_per_frame` points.
    pub fn traces(&self, config: &AutoGazeConfig, min_points_per_frame: usize) -> (r: Vec<
        FrameFixationTrace,
    >)
        requires
            layouts_fit(*config),
            self.countable(config.num_vision_tokens_each_frame as nat),
        ensures
            r@.len() == self.gazing_pos@.len(),
            forall|b: int|
                0 <= b < r@.len() ==> self.is_trace(
                    #[trigger] r@[b],
                    *config,
                    b,
                    min_points_per_frame as nat,
                ),
    {
        generated_to_traces(self, config, min_points_per_frame)
    }

    /// `trace` holds the fixations of row `b`, padded to at least `k` points a frame.
    pub open spec fn is_trace(
        self,
        trace: FrameFixationTrace,
        config: AutoGazeConfig,
        b: int,
        k: nat,
    ) -> bool {
        &&& trace.frames@.len() == self.num_gazing_each_frame@.len()
        &&& forall|f: int|
            0 <= f < trace.frames@.len() ==> (#[trigger] trace.frames@[f]).points@
                == padded_points(
                self.frame_points(
                    layouts_of(config),
                    config.num_vision_tokens_each_frame as nat,
                    b,
                    f,
                ),
                at_least_one(k),
            ) && trace.frames@[f].stop_probability == unit_clamped(self.frame_stop(b, f))
    }

    /// Which tokens of each scale were generated, for every row.
    pub fn scale_token_masks(&self, config: &AutoGazeConfig) -> (r: Vec<
        Vec<AutoGazeScaleTokenMask>,
    >)
        requires
            layouts_fit(*config),
            self.countable(config.num_vision_tokens_each_frame as nat),
        ensures
            r@.len() == self.gazing_pos@.len(),
            forall|b: int|
                0 <= b < r@.len() ==> self.are_masks(
                    (#[trigger] r@[b])@,
                    layouts_of(*config),
                    config.num_vision_tokens_each_frame as nat,
                    b,
                ),
    {
        generated_scale_token_masks(self, config)
    }

    /// Frame `frame` of row `b` holds token `local` of scale `scale`.
    pub open spec fn holds_token(
        self,
        layouts: Seq<AutoGazeScaleTokenLayout>,
        per_frame: nat,
        b: int,
        frame: int,
        n: nat,
        scale: nat,
        local: nat,
    ) -> bool {
        exists|i: int|
            self.cursor(frame) <= i < self.cursor(frame) + n && #[trigger] self.slot_is(
                layouts,
                per_frame,
                b,
                frame,
                i,
                scale,
                local,
            )
    }

    /// The slot holds token `local` of scale `scale`.
    pub open spec fn slot_is(
        self,
        layouts: Seq<AutoGazeScaleTokenLayout>,
        per_frame: nat,
        b: int,
        frame: int,
        slot: int,
        scale: nat,
        local: nat,
    ) -> bool {
        match self.frame_token(per_frame, b, frame, slot) {
            Some(token) => scale_of(token as usize as nat, layouts, 0) == Some((scale, local)),
            None => false,
        }
    }

    /// `masks` mark the tokens that row `b` holds, scale by scale and frame by frame.
    pub open spec fn are_masks(
        self,
        masks: Seq<AutoGazeScaleTokenMask>,
        layouts: Seq<AutoGazeScaleTokenLayout>,
        per_frame: nat,
        b: int,
    ) -> bool {
        &&& masks.len() == layouts.len()
        &&& forall|s: int|
            0 <= s < masks.len() ==> self.is_mask(#[trigger] masks[s], layouts, per_frame, b, s)
    }

    /// `mask` marks the tokens of scale `s` that row `b` holds.
    pub open spec fn is_mask(
        self,
        mask: AutoGazeScaleTokenMask,
        layouts: Seq<AutoGazeScaleTokenLayout>,
        per_frame: nat,
        b: int,
        s: int,
    ) -> bool {
        &&& mask.grid == layouts[s].grid
        &&& mask.token_count == layouts[s].token_count
        &&& mask.frames@.len() == self.num_gazing_each_frame@.len()
        &&& forall|f: int|
            0 <= f < mask.frames@.len() ==> self.is_frame_mask(
                (#[trigger] mask.frames@[f])@,
                layouts,
                per_frame,
                b,
                s,
                f,
                self.num_gazing_each_frame@[f] as nat,
            )
    }

    /// `flags` mark the tokens of scale `s` in the first `n` slots of frame `f`.
    pub open spec fn is_frame_mask(
        self,
        flags: Seq<bool>,
        layouts: Seq<AutoGazeScaleTokenLayout>,
        per_frame: nat,
        b: int,
        s: int,
        f: int,
        n: nat,
    ) -> bool {
        &&& flags.len() == layouts[s].token_count
        &&& forall|t: int|
            0 <= t < flags.len() ==> #[trigger] flags[t] == self.holds_token(
                layouts,
                per_frame,
                b,
                f,
                n,
                s as nat,
                t as nat,
            )
    }

    fn frame_mask(
        &self,
        layouts: &Vec<AutoGazeScaleTokenLayout>,
        per_frame: usize,
        b: usize,
        s: usize,
        f: usize,
        cursor: usize,
    ) -> (flags: Vec<bool>)
        requires
            s < layouts@.len(),
            f < self.num_gazing_each_frame@.len(),
            cursor == self.cursor(f as int),
            cursor + self.num_gazing_each_frame@[f as int] <= usize::MAX,
            f * per_frame <= i64::MAX,
            f * per_frame <= usize::MAX,
        ensures
            self.is_frame_mask(
                flags@,
                layouts@,
                per_frame as nat,
                b as int,
                s as int,
                f as int,
                self.num_gazing_each_frame@[f as int] as nat,
            ),
    {
        let count: usize = layouts[s].token_count;
        let n: usize = self.num_gazing_each_frame[f];
        let mut flags: Vec<bool> = Vec::new();
        while flags.len() < count
            invariant
                flags@.len() <= count,
                forall|t: int| 0 <= t < flags@.len() ==> !(#[trigger] flags@[t]),
            decreases count - flags@.len(),
        {
            flags.push(false);
        }
        let mut i: usize = 0;
        while i < n
            invariant
                i <= n,
                s < layouts@.len(),
                count == layouts@[s as int].token_count,
                cursor == self.cursor(f as int),
                cursor + n <= usize::MAX,
                f * per_frame <= i64::MAX,
                f * per_frame <= usize::MAX,
                self.is_frame_mask(
                    flags@,
                    layouts@,
                    per_frame as nat,
                    b as int,
                    s as int,
                    f as int,
                    i as nat,
                ),
            decreases n - i,
        {
            let slot: usize = cursor + i;
            let ghost before = flags@;
            let ghost found = match self.frame_token(
                per_frame as nat,
                b as int,
                f as int,
                slot as int,
            ) {
                Some(token) => scale_of(token as usize as nat, layouts@, 0),
                None => None,
            };
            if let Some(token) = self.token_at(per_frame, b, f, slot) {
                if let Some((scale, local)) = scale_token_index(token as usize, layouts) {
                    if scale == s {
                        flags.set(local, true);
                    }
                }
            }
            proof {
                assert forall|t: int| 0 <= t < flags@.len() implies #[trigger] flags@[t]
                    == self.holds_token(
                    layouts@,
                    per_frame as nat,
                    b as int,
                    f as int,
                    (i + 1) as nat,
                    s as nat,
                    t as nat,
                ) by {
                    self.lemma_holds_next(
                        layouts@,
                        per_frame as nat,
                        b as int,
                        f as int,
                        i as nat,
                        s as nat,
                        t as nat,
                    );
                    assert(before[t] == self.holds_token(
                        layouts@,
                        per_frame as nat,
                        b as int,
                        f as int,
                        i as nat,
                        s as nat,
                        t as nat,
                    ));
                }
            }
            i = i + 1;
        }
        flags
    }

    proof fn lemma_holds_next(
        self,
        layouts: Seq<AutoGazeScaleTokenLayout>,
        per_frame: nat,
        b: int,
        f: int,
        n: nat,
        s: nat,
        t: nat,
    )
        ensures
            self.holds_token(layouts, per_frame, b, f, n + 1, s, t) == (self.holds_token(
                layouts,
                per_frame,
                b,
                f,
                n,
                s,
                t,
            ) || self.slot_is(layouts, per_frame, b, f, self.cursor(f) + n, s, t)),
    {
        let c = self.cursor(f);
        if self.holds_token(layouts, per_frame, b, f, n + 1, s, t) {
            let i = choose|i: int|
                c <= i < c + (n + 1) && #[trigger] self.slot_is(
                    layouts,
                    per_frame,
                    b,
                    f,
                    i,
                    s,
                    t,
                );
            if i < c + n {
                assert(self.slot_is(layouts, per_frame, b, f, i, s, t));
            }
        }
        if self.holds_token(layouts, per_frame, b, f, n, s, t) {
            let i = choose|i: int|
                c <= i < c + n && #[trigger] self.slot_is(layouts, per_frame, b, f, i, s, t);
            assert(self.slot_is(layouts, per_frame, b, f, i, s, t));
        }
        if self.slot_is(layouts, per_frame, b, f, c + n, s, t) {
            assert(c <= c + n < c + (n + 1));
        }
    }
}

/// The fixations of every frame of a row.
pub fn generated_to_frame_fixations(
    generated: &AutoGazeGenerateOutput,
    config: &AutoGazeConfig,
    batch_idx: usize,
) -> (r: Vec<GeneratedFrameFixations>)
    requires
        layouts_fit(*config),
        generated.countable(config.num_vision_tokens_each_frame as nat),
    ensures
        r@.len() == generated.num_gazing_each_frame@.len(),
        forall|f: int|
            0 <= f < r@.len() ==> (#[trigger] r@[f]).points@ == generated.frame_points(
                layouts_of(*config),
                config.num_vision_tokens_each_frame as nat,
                batch_idx as int,
                f,
            ) && r@[f].stop_probability == generated.frame_stop(batch_idx as int, f),
{
    let layouts: Vec<AutoGazeScaleTokenLayout> = scale_token_layouts(config);
    let per_frame: usize = config.num_vision_tokens_each_frame;
    let frames: usize = generated.num_gazing_each_frame.len();
    let mut result: Vec<GeneratedFrameFixations> = Vec::new();
    let mut cursor: usize = 0;
    let mut f: usize = 0;
    while f < frames
        invariant
            f <= frames,
            frames == generated.num_gazing_each_frame@.len(),
            per_frame == config.num_vision_tokens_each_frame,
            generated.countable(per_frame as nat),
            layouts@ == layouts_of(*config),
            cursor == generated.cursor(f as int),
            result@.len() == f,
            forall|g: int|
                0 <= g < f ==> (#[trigger] result@[g]).points@ == generated.frame_points(
                    layouts_of(*config),
                    per_frame as nat,
                    batch_idx as int,
                    g,
                ) && result@[g].stop_probability == generated.frame_stop(batch_idx as int, g),
        decreases frames - f,
    {
        let len: usize = generated.num_gazing_each_frame[f];
        proof {
            lemma_slots_monotone(
                generated.num_gazing_each_frame@,
                (f + 1) as nat,
                frames as nat,
            );
            assert(f * per_frame <= frames * per_frame) by (nonlinear_arith)
                requires
                    f <= frames,
                    per_frame >= 0,
            ;
        }
        let frame: GeneratedFrameFixations = generated.frame_fixations_from_layouts(
            per_frame,
            batch_idx,
            f,
            cursor,
            len,
            &layouts,
        );
        cursor = cursor + len;
        result.push(frame);
        f = f + 1;
    }
    result
}

/// The fixations of one frame of a row; `None` where there is no such row or frame.
pub fn generated_frame_fixations(
    generated: &AutoGazeGenerateOutput,
    config: &AutoGazeConfig,
    batch_idx: usize,
    frame_idx: usize,
) -> (r: Option<GeneratedFrameFixations>)
    requires
        layouts_fit(*config),
        generated.countable(config.num_vision_tokens_each_frame as nat),
    ensures
        match r {
            Some(frame) => {
                &&& batch_idx < generated.gazing_pos@.len()
                &&& frame_idx < generated.num_gazing_each_frame@.len()
                &&& frame.points@ == generated.frame_points(
                    layouts_of(*config),
                    config.num_vision_tokens_each_frame as nat,
                    batch_idx as int,
                    frame_idx as int,
                )
                &&& frame.stop_probability == generated.frame_stop(
                    batch_idx as int,
                    frame_idx as int,
                )
            },
            None => batch_idx >= generated.gazing_pos@.len() || frame_idx
                >= generated.num_gazing_each_frame@.len(),
        },
{
    if batch_idx >= generated.gazing_pos.len() || frame_idx
        >= generated.num_gazing_each_frame.len() {
        return None;
    }
    let ghost nums = generated.num_gazing_each_frame@;
    let per_frame: usize = config.num_vision_tokens_each_frame;
    let mut cursor: usize = 0;
    let mut f: usize = 0;
    while f < frame_idx
        invariant
            f <= frame_idx < nums.len(),
            nums == generated.num_gazing_each_frame@,
            slots_before(nums, nums.len()) <= usize::MAX,
            cursor == slots_before(nums, f as nat),
        decreases frame_idx - f,
    {
        proof {
            lemma_slots_monotone(nums, (f + 1) as nat, nums.len());
        }
        cursor = cursor + generated.num_gazing_each_frame[f];
        f = f + 1;
    }
    let layouts: Vec<AutoGazeScaleTokenLayout> = scale_token_layouts(config);
    proof {
        lemma_slots_monotone(nums, (frame_idx + 1) as nat, nums.len());
        assert(frame_idx * per_frame <= nums.len() * per_frame) by (nonlinear_arith)
            requires
                frame_idx <= nums.len(),
                per_frame >= 0,
        ;
    }
    Some(
        generated.frame_fixations_from_layouts(
            per_frame,
            batch_idx,
            frame_idx,
            cursor,
            generated.num_gazing_each_frame[frame_idx],
            &layouts,
        ),
    )
}

/// The fixation traces of all rows, each frame with at least `k` points.
pub fn generated_to_traces(
    generated: &AutoGazeGenerateOutput,
    config: &AutoGazeConfig,
    k: usize,
) -> (r: Vec<FrameFixationTrace>)
    requires
        layouts_fit(*config),
        generated.countable(config.num_vision_tokens_each_frame as nat),
    ensures
        r@.len() == generated.gazing_pos@.len(),
        forall|b: int|
            0 <= b < r@.len() ==> generated.is_trace(#[trigger] r@[b], *config, b, k as nat),
{
    let layouts: Vec<AutoGazeScaleTokenLayout> = scale_token_layouts(config);
    let mut traces: Vec<FrameFixationTrace> = Vec::new();
    let mut b: usize = 0;
    while b < generated.gazing_pos.len()
        invariant
            b <= generated.gazing_pos@.len(),
            layouts@ == layouts_of(*config),
            generated.countable(config.num_vision_tokens_each_frame as nat),
            traces@.len() == b,
            forall|c: int|
                0 <= c < b ==> generated.is_trace(#[trigger] traces@[c], *config, c, k as nat),
        decreases generated.gazing_pos@.len() - b,
    {
        let trace: FrameFixationTrace = trace_of_row(generated, config, &layouts, b, k);
        traces.push(trace);
        b = b + 1;
    }
    traces
}

fn trace_of_row(
    generated: &AutoGazeGenerateOutput,
    config: &AutoGazeConfig,
    layouts: &Vec<AutoGazeScaleTokenLayout>,
    b: usize,
    k: usize,
) -> (r: FrameFixationTrace)
    requires
        layouts@ == layouts_of(*config),
        generated.countable(config.num_vision_tokens_each_frame as nat),
    ensures
        generated.is_trace(r, *config, b as int, k as nat),
{
    let ghost nums = generated.num_gazing_each_frame@;
    let per_frame: usize = config.num_vision_tokens_each_frame;
    let count: usize = generated.num_gazing_each_frame.len();
    let mut frames: Vec<FixationSet> = Vec::new();
    let mut cursor: usize = 0;
    let mut f: usize = 0;
    while f < count
        invariant
            f <= count,
            count == nums.len(),
            nums == generated.num_gazing_each_frame@,
            per_frame == config.num_vision_tokens_each_frame,
            layouts@ == layouts_of(*config),
            generated.countable(per_frame as nat),
            cursor == generated.cursor(f as int),
            frames@.len() == f,
            forall|g: int|
                0 <= g < f ==> (#[trigger] frames@[g]).points@ == padded_points(
                    generated.frame_points(
                        layouts_of(*config),
                        per_frame as nat,
                        b as int,
                        g,
                    ),
                    at_least_one(k as nat),
                ) && frames@[g].stop_probability == unit_clamped(
                    generated.frame_stop(b as int, g),
                ),
        decreases count - f,
    {
        let len: usize = generated.num_gazing_each_frame[f];
        proof {
            lemma_slots_monotone(nums, (f + 1) as nat, nums.len());
            assert(f * per_frame <= count * per_frame) by (nonlinear_arith)
                requires
                    f <= count,
                    per_frame >= 0,
            ;
        }
        let frame: GeneratedFrameFixations = generated.frame_fixations_from_layouts(
            per_frame,
            b,
            f,
            cursor,
            len,
            layouts,
        );
        frames.push(FixationSet::with_min_len(frame.points, frame.stop_probability, k));
        cursor = cursor + len;
        f = f + 1;
    }
    FrameFixationTrace::new(frames)
}

/// The points of every frame of every row.
pub fn generated_to_frame_points(
    generated: &AutoGazeGenerateOutput,
    config: &AutoGazeConfig,
) -> (r: Vec<Vec<Vec<FixationPoint>>>)
    requires
        layouts_fit(*config),
        generated.countable(config.num_vision_tokens_each_frame as nat),
    ensures
        r@.len() == generated.gazing_pos@.len(),
        forall|b: int|
            0 <= b < r@.len() ==> generated.are_frame_points((#[trigger] r@[b])@, *config, b),
{
    let mut batches: Vec<Vec<Vec<FixationPoint>>> = Vec::new();
    let mut b: usize = 0;
    while b < generated.gazing_pos.len()
        invariant
            b <= generated.gazing_pos@.len(),
            layouts_fit(*config),
            generated.countable(config.num_vision_tokens_each_frame as nat),
            batches@.len() == b,
            forall|c: int|
                0 <= c < b ==> generated.are_frame_points((#[trigger] batches@[c])@, *config, c),
        decreases generated.gazing_pos@.len() - b,
    {
        let frames: Vec<Vec<FixationPoint>> = frame_points_of_row(generated, config, b);
        batches.push(frames);
        b = b + 1;
    }
    batches
}

impl AutoGazeGenerateOutput {
    /// `frames` are the points of row `b`, frame by frame.
    pub open spec fn are_frame_points(
        self,
        frames: Seq<Vec<FixationPoint>>,
        config: AutoGazeConfig,
        b: int,
    ) -> bool {
        &&& frames.len() == self.num_gazing_each_frame@.len()
        &&& forall|f: int|
            0 <= f < frames.len() ==> (#[trigger] frames[f])@ == self.frame_points(
                layouts_of(config),
                config.num_vision_tokens_each_frame as nat,
                b,
                f,
            )
    }
}

fn frame_points_of_row(
    generated: &AutoGazeGenerateOutput,
    config: &AutoGazeConfig,
    b: usize,
) -> (r: Vec<Vec<FixationPoint>>)
    requires
        layouts_fit(*config),
        generated.countable(config.num_vision_tokens_each_frame as nat),
        b < generated.gazing_pos@.len(),
    ensures
        generated.are_frame_points(r@, *config, b as int),
{
    let mut frames: Vec<Vec<FixationPoint>> = Vec::new();
    let mut f: usize = 0;
    while f < generated.num_gazing_each_frame.len()
        invariant
            f <= generated.num_gazing_each_frame@.len(),
            b < generated.gazing_pos@.len(),
            layouts_fit(*config),
            generated.countable(config.num_vision_tokens_each_frame as nat),
            frames@.len() == f,
            forall|g: int|
                0 <= g < f ==> (#[trigger] frames@[g])@ == generated.frame_points(
                    layouts_of(*config),
                    config.num_vision_tokens_each_frame as nat,
                    b as int,
                    g,
                ),
        decreases generated.num_gazing_each_frame@.len() - f,
    {
        match generated_frame_fixations(generated, config, b, f) {
            Some(frame) => {
                frames.push(frame.points);
            },
            None => {
                assert(false);
            },
        }
        f = f + 1;
    }
    frames
}

/// Which tokens of each scale were generated, for every row.
pub fn generated_scale_token_masks(
    generated: &AutoGazeGenerateOutput,
    config: &AutoGazeConfig,
) -> (r: Vec<Vec<AutoGazeScaleTokenMask>>)
    requires
        layouts_fit(*config),
        generated.countable(config.num_vision_tokens_each_frame as nat),
    ensures
        r@.len() == generated.gazing_pos@.len(),
        forall|b: int|
            0 <= b < r@.len() ==> generated.are_masks(
                (#[trigger] r@[b])@,
                layouts_of(*config),
                config.num_vision_tokens_each_frame as nat,
                b,
            ),
{
    let layouts: Vec<AutoGazeScaleTokenLayout> = scale_token_layouts(config);
    let per_frame: usize = config.num_vision_tokens_each_frame;
    let mut batches: Vec<Vec<AutoGazeScaleTokenMask>> = Vec::new();
    let mut b: usize = 0;
    while b < generated.gazing_pos.len()
        invariant
            b <= generated.gazing_pos@.len(),
            layouts@ == layouts_of(*config),
            generated.countable(per_frame as nat),
            batches@.len() == b,
            forall|c: int|
                0 <= c < b ==> generated.are_masks(
                    (#[trigger] batches@[c])@,
                    layouts@,
                    per_frame as nat,
                    c,
                ),
        decreases generated.gazing_pos@.len() - b,
    {
        let mut masks: Vec<AutoGazeScaleTokenMask> = Vec::new();
        let mut s: usize = 0;
        while s < layouts.len()
            invariant
                s <= layouts@.len(),
                generated.countable(per_frame as nat),
                masks@.len() == s,
                forall|t: int|
                    0 <= t < s ==> generated.is_mask(
                        #[trigger] masks@[t],
                        layouts@,
                        per_frame as nat,
                        b as int,
                        t,
                    ),
            decreases layouts@.len() - s,
        {
            let mask: AutoGazeScaleTokenMask = scale_mask(generated, &layouts, per_frame, b, s);
            masks.push(mask);
            s = s + 1;
        }
        batches.push(masks);
        b = b + 1;
    }
    batches
}

fn scale_mask(
    generated: &AutoGazeGenerateOutput,
    layouts: &Vec<AutoGazeScaleTokenLayout>,
    per_frame: usize,
    b: usize,
    s: usize,
) -> (r: AutoGazeScaleTokenMask)
    requires
        s < layouts@.len(),
        generated.countable(per_frame as nat),
    ensures
        generated.is_mask(r, layouts@, per_frame as nat, b as int, s as int),
{
    let ghost nums = generated.num_gazing_each_frame@;
    let count: usize = generated.num_gazing_each_frame.len();
    let mut frames: Vec<Vec<bool>> = Vec::new();
    let mut cursor: usize = 0;
    let mut f: usize = 0;
    while f < count
        invariant
            f <= count,
            count == nums.len(),
            nums == generated.num_gazing_each_frame@,
            s < layouts@.len(),
            generated.countable(per_frame as nat),
            cursor == generated.cursor(f as int),
            frames@.len() == f,
            forall|g: int|
                0 <= g < f ==> generated.is_frame_mask(
                    (#[trigger] frames@[g])@,
                    layouts@,
                    per_frame as nat,
                    b as int,
                    s as int,
                    g,
                    nums[g] as nat,
                ),
        decreases count - f,
    {
        proof {
            lemma_slots_monotone(nums, (f + 1) as nat, nums.len());
            assert(f * per_frame <= count * per_frame) by (nonlinear_arith)
                requires
                    f <= count,
                    per_frame >= 0,
            ;
        }
        let flags: Vec<bool> = generated.frame_mask(layouts, per_frame, b, s, f, cursor);
        frames.push(flags);
        cursor = cursor + generated.num_gazing_each_frame[f];
        f = f + 1;
    }
    AutoGazeScaleTokenMask {
        grid: layouts[s].grid,
        token_count: layouts[s].token_count,
        frames,
    }
}

/// No generated token is lost: the point of every slot that is not padding is among the points of
/// its frame, and a trace of the frame keeps all of them whatever its lower bound is.
pub proof fn lemma_points_complete(
    generated: AutoGazeGenerateOutput,
    layouts: Seq<AutoGazeScaleTokenLayout>,
    per_frame: nat,
    b: int,
    frame: int,
    cursor: int,
    n: nat,
    slot: int,
    min_len: nat,
)
    requires
        cursor <= slot < cursor + n,
        generated.slot_point(layouts, per_frame, b, frame, slot) is Some,
    ensures
        ({
            let points = generated.points_of(layouts, per_frame, b, frame, cursor, n);
            let point = generated.slot_point(layouts, per_frame, b, frame, slot)->0;
            &&& points.contains(point)
            &&& padded_points(points, min_len).contains(point)
            &&& padded_points(points, min_len).take(points.len() as int) == points
        }),
    decreases n,
{
    let points = generated.points_of(layouts, per_frame, b, frame, cursor, n);
    let point = generated.slot_point(layouts, per_frame, b, frame, slot)->0;
    if slot == cursor + n - 1 {
        assert(points.last() == point);
        assert(points[points.len() - 1] == point);
    } else {
        lemma_points_complete(
            generated,
            layouts,
            per_frame,
            b,
            frame,
            cursor,
            (n - 1) as nat,
            slot,
            min_len,
        );
        let before = generated.points_of(
            layouts,
            per_frame,
            b,
            frame,
            cursor,
            (n - 1) as nat,
        );
        let i = choose|i: int| 0 <= i < before.len() && before[i] == point;
        assert(points[i] == point);
    }
    let i = choose|i: int| 0 <= i < points.len() && points[i] == point;
    assert(padded_points(points, min_len)[i] == point);
    assert(padded_points(points, min_len).take(points.len() as int) =~= points);
}

/// A slot that is not padding stands for the token that lies as far into its frame as the raw token
/// is beyond the tokens of the frames before.
pub proof fn lemma_slot_stands_for_token(
    generated: AutoGazeGenerateOutput,
    layouts: Seq<AutoGazeScaleTokenLayout>,
    per_frame: nat,
    b: int,
    frame: nat,
    slot: int,
    token: nat,
)
    requires
        0 <= b < generated.gazing_pos@.len(),
        0 <= slot < generated.gazing_pos@[b]@.len(),
        b < generated.if_padded_gazing@.len(),
        slot < generated.if_padded_gazing@[b]@.len(),
        b < generated.confidences@.len(),
        slot < generated.confidences@[b]@.len(),
        token <= usize::MAX,
        generated.gazing_pos@[b]@[slot] == frame * per_frame + token,
    ensures
        generated.if_padded_gazing@[b]@[slot] ==> generated.slot_point(
            layouts,
            per_frame,
            b,
            frame as int,
            slot,
        ) is None,
        !generated.if_padded_gazing@[b]@[slot] ==> generated.slot_point(
            layouts,
            per_frame,
            b,
            frame as int,
            slot,
        ) == token_point(token, layouts, generated.confidences@[b]@[slot]),
{
}

/// A frame has ended early exactly where one of its slots is padding.
pub proof fn lemma_stop_tells_padding(generated: AutoGazeGenerateOutput, b: int, frame: int)
    requires
        generated.rows((b + 1) as nat),
        b >= 0,
        generated.gazing_pos@[b]@.len() == generated.if_padded_gazing@[b]@.len(),
        generated.cursor(frame) + generated.num_gazing_each_frame@[frame]
            <= generated.gazing_pos@[b]@.len(),
    ensures
        generated.frame_stop(b, frame) == single(ONE_BITS) <==> exists|slot: int|
            generated.cursor(frame) <= slot < generated.cursor(frame)
                + generated.num_gazing_each_frame@[frame] && #[trigger] generated.if_padded_gazing@[b]@[slot],
        generated.frame_stop(b, frame) == single(ONE_BITS) || generated.frame_stop(b, frame)
            == single(ZERO_BITS),
{
    let (from, n) = (generated.cursor(frame), generated.num_gazing_each_frame@[frame]);
    if generated.holds_padding(b, from, n as nat) {
        let i = choose|i: int|
            from <= i < from + n && (#[trigger] generated.raw_token(b, i)) is Some
                && generated.slot_padded(b, i);
        assert(generated.if_padded_gazing@[b]@[i]);
    }
    if exists|slot: int|
        from <= slot < from + n && #[trigger] generated.if_padded_gazing@[b]@[slot] {
        let i = choose|slot: int|
            from <= slot < from + n && #[trigger] generated.if_padded_gazing@[b]@[slot];
        assert(generated.raw_token(b, i) is Some);
    }
}

/// A mask marks the token of every slot of the frame that is not padding.
pub proof fn lemma_mask_marks_token(
    generated: AutoGazeGenerateOutput,
    masks: Seq<AutoGazeScaleTokenMask>,
    layouts: Seq<AutoGazeScaleTokenLayout>,
    per_frame: nat,
    b: int,
    frame: nat,
    slot: int,
    token: nat,
)
    requires
        generated.are_masks(masks, layouts, per_frame, b),
        frame < generated.num_gazing_each_frame@.len(),
        generated.cursor(frame as int) <= slot < generated.cursor(frame as int)
            + generated.num_gazing_each_frame@[frame as int],
        0 <= b < generated.gazing_pos@.len(),
        slot < generated.gazing_pos@[b]@.len(),
        b < generated.if_padded_gazing@.len(),
        slot < generated.if_padded_gazing@[b]@.len(),
        !generated.if_padded_gazing@[b]@[slot],
        token <= usize::MAX,
        generated.gazing_pos@[b]@[slot] == frame * per_frame + token,
        scale_of(token, layouts, 0) is Some,
    ensures
        ({
            let (s, local) = scale_of(token, layouts, 0)->0;
            &&& s < masks.len()
            &&& local < masks[s as int].frames@[frame as int]@.len()
            &&& masks[s as int].frames@[frame as int]@[local as int]
        }),
{
    let (s, local) = scale_of(token, layouts, 0)->0;
    lemma_scale_of(token, layouts);
    let f = frame as int;
    assert(generated.is_mask(masks[s as int], layouts, per_frame, b, s as int));
    assert(generated.is_frame_mask(
        masks[s as int].frames@[f]@,
        layouts,
        per_frame,
        b,
        s as int,
        f,
        generated.num_gazing_each_frame@[f] as nat,
    ));
    assert(generated.slot_is(layouts, per_frame, b, f, slot, s, local));
}

/// What a mask marks was generated: some slot of the frame that is not padding holds that token.
pub proof fn lemma_mask_marks_only_tokens(
    generated: AutoGazeGenerateOutput,
    masks: Seq<AutoGazeScaleTokenMask>,
    layouts: Seq<AutoGazeScaleTokenLayout>,
    per_frame: nat,
    b: int,
    frame: int,
    s: int,
    local: int,
)
    requires
        generated.are_masks(masks, layouts, per_frame, b),
        0 <= frame < generated.num_gazing_each_frame@.len(),
        0 <= s < masks.len(),
        0 <= local < layouts[s].token_count,
        masks[s].frames@[frame]@[local],
    ensures
        exists|slot: int|
            generated.cursor(frame) <= slot < generated.cursor(frame)
                + generated.num_gazing_each_frame@[frame] && (#[trigger] generated.frame_token(
                per_frame,
                b,
                frame,
                slot,
            )) is Some && generated.frame_token(per_frame, b, frame, slot)->0 as usize
                == tokens_before(layouts, s as nat) + local,
{
    assert(generated.is_mask(masks[s], layouts, per_frame, b, s));
    let n = generated.num_gazing_each_frame@[frame] as nat;
    assert(generated.is_frame_mask(masks[s].frames@[frame]@, layouts, per_frame, b, s, frame, n));
    assert(generated.holds_token(layouts, per_frame, b, frame, n, s as nat, local as nat));
    let slot = choose|i: int|
        generated.cursor(frame) <= i < generated.cursor(frame) + n && #[trigger] generated.slot_is(
            layouts,
            per_frame,
            b,
            frame,
            i,
            s as nat,
            local as nat,
        );
    let token = generated.frame_token(per_frame, b, frame, slot)->0;
    lemma_scale_of(token as usize as nat, layouts);
}

} // verus!
