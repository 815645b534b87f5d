//! Fixations from changes between frames.
//!
//! The frame is cut into a square grid of patches. A patch whose mean change lies above a threshold
//! becomes a fixation of the last frame; the patches that changed most come first.
use crate::arith::{capped, max_int, max_usize, min_int, min_usize, saturating_times};
use crate::error::AutoGazeError;
use crate::ieee::{Binary32, Binary64};
use crate::order::{by_rank, sort_by_rank, Ranked};
use crate::readout::EPSILON_BITS;
use crate::stitch::point_lists;
use crate::trace::{
    at_least_one, padded_points, single, unit_clamped, FixationPoint, FixationSet,
    FrameFixationTrace, HALF_BITS, ONE_BITS, ZERO_BITS,
};
use vstd::prelude::*;
use vstd::slice::slice_subrange;

verus! {

/// The default side of the grid.
pub const DEFAULT_PATCH_DIFF_GRID_SIZE: usize = 14;

/// The bits of the default threshold, 0.45.
pub const DEFAULT_PATCH_DIFF_THRESHOLD_BITS: u32 = 0x3ee6_6666;

/// The side of the grid and the change from which on a patch counts.
#[derive(Clone, Copy, Debug, PartialEq, Eq, Structural)]
pub struct AutoGazePatchDiffConfig {
    pub grid_size: usize,
    pub threshold: Binary32,
}

impl Default for AutoGazePatchDiffConfig {
    fn default() -> (r: AutoGazePatchDiffConfig)
        ensures
            r.grid_size == DEFAULT_PATCH_DIFF_GRID_SIZE,
            r.threshold == single(DEFAULT_PATCH_DIFF_THRESHOLD_BITS),
    {
        AutoGazePatchDiffConfig {
            grid_size: DEFAULT_PATCH_DIFF_GRID_SIZE,
            threshold: single(DEFAULT_PATCH_DIFF_THRESHOLD_BITS),
        }
    }
}

impl AutoGazePatchDiffConfig {
    pub fn new(grid_size: usize, threshold: Binary32) -> (r: AutoGazePatchDiffConfig)
        ensures
            r == (AutoGazePatchDiffConfig {
                grid_size: at_least_one(grid_size as nat) as usize,
                threshold,
            }),
    {
        AutoGazePatchDiffConfig { grid_size: max_usize(grid_size, 1), threshold }
    }

    /// The configuration with a side of at least one and a threshold of at least zero; a threshold
    /// that is not finite is replaced by the default.
    pub open spec fn normal(self) -> AutoGazePatchDiffConfig {
        AutoGazePatchDiffConfig {
            grid_size: at_least_one(self.grid_size as nat) as usize,
            threshold: if self.threshold.finite() {
                self.threshold.larger(single(ZERO_BITS))
            } else {
                single(DEFAULT_PATCH_DIFF_THRESHOLD_BITS)
            },
        }
    }

    pub fn normalized(self) -> (r: AutoGazePatchDiffConfig)
        ensures
            r == self.normal(),
    {
        AutoGazePatchDiffConfig {
            grid_size: max_usize(self.grid_size, 1),
            threshold: if self.threshold.is_finite() {
                self.threshold.larger(single(ZERO_BITS))
            } else {
                single(DEFAULT_PATCH_DIFF_THRESHOLD_BITS)
            },
        }
    }

    /// The number of patches.
    pub open spec fn cells(self) -> usize {
        capped(self.normal().grid_size as nat * self.normal().grid_size as nat)
    }

    pub fn token_budget(self) -> (r: usize)
        ensures
            r == self.cells(),
    {
        let grid_size: usize = max_usize(self.grid_size, 1);
        saturating_times(grid_size, grid_size)
    }
}

/// Where fixations come from.
#[derive(Clone, Copy, Debug, PartialEq, Eq, Structural)]
pub enum AutoGazeSparseMaskSource {
    /// The model.
    AutoGaze,
    /// Changes between frames.
    PatchDiff(AutoGazePatchDiffConfig),
}

impl Default for AutoGazeSparseMaskSource {
    fn default() -> (r: AutoGazeSparseMaskSource)
        ensures
            r is AutoGaze,
    {
        AutoGazeSparseMaskSource::AutoGaze
    }
}

impl AutoGazeSparseMaskSource {
    pub fn autogaze() -> (r: AutoGazeSparseMaskSource)
        ensures
            r is AutoGaze,
    {
        AutoGazeSparseMaskSource::AutoGaze
    }

    pub fn patch_diff(grid_size: usize, threshold: Binary32) -> (r: AutoGazeSparseMaskSource)
        ensures
            r == AutoGazeSparseMaskSource::PatchDiff(
                AutoGazePatchDiffConfig {
                    grid_size: at_least_one(grid_size as nat) as usize,
                    threshold,
                },
            ),
    {
        AutoGazeSparseMaskSource::PatchDiff(AutoGazePatchDiffConfig::new(grid_size, threshold))
    }

    pub fn requires_autogaze_model(self) -> (r: bool)
        ensures
            r == (self is AutoGaze),
    {
        match self {
            AutoGazeSparseMaskSource::AutoGaze => true,
            _ => false,
        }
    }

    pub fn is_patch_diff(self) -> (r: bool)
        ensures
            r == (self is PatchDiff),
    {
        match self {
            AutoGazeSparseMaskSource::PatchDiff(_) => true,
            _ => false,
        }
    }
}

/// How the changes of the patches are found.
#[derive(Clone, Copy, Debug, PartialEq, Eq, Structural)]
pub enum PatchDiffPlan {
    /// There is only one frame, so nothing has changed.
    Still,
    /// The patches are averaged; each has the given height and width.
    Patches { height: usize, width: usize },
    /// The frame does not fill whole patches, so the changes are resampled.
    Resampled,
}

/// Decides how the changes of a video are found.
pub fn plan_patch_diff(
    batch: usize,
    time: usize,
    channels: usize,
    height: usize,
    width: usize,
    config: AutoGazePatchDiffConfig,
) -> (r: Result<PatchDiffPlan, AutoGazeError>)
    ensures
        match r {
            Ok(plan) => {
                let grid = at_least_one(config.grid_size as nat) as int;
                &&& batch > 0 && time > 0 && channels > 0 && height > 0 && width > 0
                &&& plan == (if time < 2 {
                    PatchDiffPlan::Still
                } else if height as int % grid == 0 && width as int % grid == 0 {
                    PatchDiffPlan::Patches {
                        height: (height as int / grid) as usize,
                        width: (width as int / grid) as usize,
                    }
                } else {
                    PatchDiffPlan::Resampled
                })
            },
            Err(error) => if batch == 0 {
                error == AutoGazeError::PatchDiffBatch
            } else if time == 0 {
                error == AutoGazeError::PatchDiffTime
            } else if channels == 0 {
                error == AutoGazeError::PatchDiffChannels
            } else {
                (height == 0 || width == 0) && error == AutoGazeError::PatchDiffSpace
            },
        },
{
    let grid: usize = max_usize(config.grid_size, 1);
    if batch == 0 {
        return Err(AutoGazeError::PatchDiffBatch);
    }
    if time == 0 {
        return Err(AutoGazeError::PatchDiffTime);
    }
    if channels == 0 {
        return Err(AutoGazeError::PatchDiffChannels);
    }
    if height == 0 || width == 0 {
        return Err(AutoGazeError::PatchDiffSpace);
    }
    if time < 2 {
        return Ok(PatchDiffPlan::Still);
    }
    if height % grid == 0 && width % grid == 0 {
        return Ok(PatchDiffPlan::Patches { height: height / grid, width: width / grid });
    }
    Ok(PatchDiffPlan::Resampled)
}

/// Refuses mask sizes without pixels.
pub fn check_patch_diff_mask(height: usize, width: usize) -> (r: Result<(), AutoGazeError>)
    ensures
        match r {
            Ok(_) => height > 0 && width > 0,
            Err(error) => (height == 0 || width == 0) && error == AutoGazeError::PatchDiffMask,
        },
{
    if height > 0 && width > 0 {
        Ok(())
    } else {
        Err(AutoGazeError::PatchDiffMask)
    }
}

/// Refuses scores of several videos, or of another grid, for a mask.
pub fn check_patch_diff_scores(batch: usize, cells: usize, config: AutoGazePatchDiffConfig) -> (r:
    Result<(), AutoGazeError>)
    ensures
        match r {
            Ok(_) => batch == 1 && cells == config.cells(),
            Err(error) => if batch != 1 {
                error == AutoGazeError::PatchDiffMaskBatch
            } else {
                cells != config.cells() && error == AutoGazeError::PatchDiffGrid
            },
        },
{
    if batch != 1 {
        Err(AutoGazeError::PatchDiffMaskBatch)
    } else if cells != config.token_budget() {
        Err(AutoGazeError::PatchDiffGrid)
    } else {
        Ok(())
    }
}

/// What a summed count stands for.
pub open spec fn whole_count(value: Binary64, max: nat) -> int {
    if value.finite() {
        let limit = Binary64::of_nat(max);
        min_int(
            value.to_usize(value.round_int()) as int,
            limit.to_usize(limit.round_int()) as int,
        )
    } else {
        0
    }
}

/// A count that was summed in floating point: the nearest whole number, at least zero and at most
/// `max`; zero where it is not finite.
pub fn scalar_count_to_usize(value: Binary64, max: usize) -> (r: usize)
    ensures
        r == whole_count(value, max as nat),
{
    if value.is_finite() {
        min_usize(value.round_usize(), Binary64::from_usize(max).round_usize())
    } else {
        0
    }
}

/// How a mask is drawn from the patches that have changed.
#[derive(Clone, Copy, Debug, PartialEq, Eq, Structural)]
pub enum PatchDiffMaskPlan {
    /// Every patch is drawn with the given height and width.
    Repeated { height: usize, width: usize },
    /// The mask does not hold whole patches, so every pixel takes the nearest one.
    Nearest,
}

/// Decides how a mask is drawn.
pub fn plan_patch_diff_mask(height: usize, width: usize, config: AutoGazePatchDiffConfig) -> (r:
    PatchDiffMaskPlan)
    ensures
        ({
            let grid = at_least_one(config.grid_size as nat) as int;
            r == (if height as int % grid == 0 && width as int % grid == 0 {
                PatchDiffMaskPlan::Repeated {
                    height: (height as int / grid) as usize,
                    width: (width as int / grid) as usize,
                }
            } else {
                PatchDiffMaskPlan::Nearest
            })
        }),
{
    let grid: usize = max_usize(config.grid_size, 1);
    if height % grid == 0 && width % grid == 0 {
        PatchDiffMaskPlan::Repeated { height: height / grid, width: width / grid }
    } else {
        PatchDiffMaskPlan::Nearest
    }
}

/// How many tokens a readout used.
#[derive(Clone, Copy, Debug, PartialEq, Eq, Structural)]
pub struct AutoGazeReadoutStats {
    pub generated_tokens: usize,
    pub active_generated_tokens: usize,
    pub padded_generated_tokens: usize,
}

/// What is told of a mask.
#[derive(Clone, Copy, Debug, PartialEq, Eq, Structural)]
pub struct PatchDiffMaskSummary {
    pub active_cell_count: usize,
    pub pixel_count: usize,
    pub frame_index: usize,
    pub model_frames: usize,
    pub stats: AutoGazeReadoutStats,
}

/// What is told of a mask, given the summed patches and pixels that are drawn. The mask is that of
/// the last frame, and every patch drawn counts as a token.
pub fn summarize_patch_diff_mask(
    active_cells: Binary64,
    pixels: Binary64,
    time: usize,
    height: usize,
    width: usize,
    config: AutoGazePatchDiffConfig,
) -> (r: PatchDiffMaskSummary)
    ensures
        ({
            let active = whole_count(active_cells, config.cells() as nat);
            r == (PatchDiffMaskSummary {
                active_cell_count: active as usize,
                pixel_count: whole_count(pixels, capped((height * width) as nat) as nat) as usize,
                frame_index: max_int(time - 1, 0) as usize,
                model_frames: time,
                stats: AutoGazeReadoutStats {
                    generated_tokens: active as usize,
                    active_generated_tokens: active as usize,
                    padded_generated_tokens: 0,
                },
            })
        }),
{
    let active: usize = scalar_count_to_usize(active_cells, config.token_budget());
    let pixel_count: usize = scalar_count_to_usize(pixels, saturating_times(height, width));
    PatchDiffMaskSummary {
        active_cell_count: active,
        pixel_count,
        frame_index: if time > 0 {
            time - 1
        } else {
            0
        },
        model_frames: time,
        stats: AutoGazeReadoutStats {
            generated_tokens: active,
            active_generated_tokens: active,
            padded_generated_tokens: 0,
        },
    }
}

/// A patch with its change.
#[derive(Clone, Copy, Debug, PartialEq, Eq, Structural)]
pub struct ScoredCell {
    pub index: usize,
    pub score: Binary32,
}

impl Ranked for ScoredCell {
    /// The place of the change in the total order.
    open spec fn rank(self) -> int {
        self.score.total_rank()
    }

    fn outranks(&self, other: &Self) -> (r: bool) {
        other.score.total_before(self.score)
    }
}

/// The patches among the first `k` whose change is finite and lies above the threshold.
pub open spec fn changed_cells(scores: Seq<Binary32>, k: nat, threshold: Binary32) -> Seq<ScoredCell>
    decreases k,
{
    if k == 0 {
        Seq::empty()
    } else {
        let before = changed_cells(scores, (k - 1) as nat, threshold);
        let score = scores[k - 1];
        if score.finite() && threshold.lt(score) {
            before.push(ScoredCell { index: (k - 1) as usize, score })
        } else {
            before
        }
    }
}

proof fn lemma_changed_cells(scores: Seq<Binary32>, k: nat, threshold: Binary32)
    ensures
        changed_cells(scores, k, threshold).len() <= k,
    decreases k,
{
    if k > 0 {
        lemma_changed_cells(scores, (k - 1) as nat, threshold);
    }
}

/// The fixation of a patch. Its confidence is its change as a share of the threshold, or the change
/// itself where the threshold is zero, cut to the unit interval, but above zero.
pub open spec fn cell_fixation(cell: ScoredCell, config: AutoGazePatchDiffConfig) -> FixationPoint {
    let grid = at_least_one(config.grid_size as nat);
    let extent = single(ONE_BITS).over(Binary32::of_nat(grid));
    FixationPoint {
        grid: grid as usize,
        ..FixationPoint::spec_with_extent(
            grid_middle((cell.index as nat) % grid, extent),
            grid_middle((cell.index as nat) / grid, extent),
            extent,
            extent,
            change_confidence(cell.score, config.threshold).larger(single(EPSILON_BITS)),
        )
    }
}

/// The middle of a cell of a given extent.
pub open spec fn grid_middle(index: nat, extent: Binary32) -> Binary32 {
    Binary32::of_nat(index).plus(single(HALF_BITS)).times(extent)
}

/// A change as a share of the threshold.
pub open spec fn change_confidence(score: Binary32, threshold: Binary32) -> Binary32 {
    if single(ZERO_BITS).lt(threshold) {
        unit_clamped(score.over(threshold))
    } else {
        unit_clamped(score)
    }
}

fn middle_in_grid(index: usize, extent: Binary32) -> (r: Binary32)
    ensures
        r == grid_middle(index as nat, extent),
{
    Binary32::from_usize(index).plus(single(HALF_BITS)).times(extent)
}

fn confidence_of_change(score: Binary32, threshold: Binary32) -> (r: Binary32)
    ensures
        r == change_confidence(score, threshold),
{
    if single(ZERO_BITS).lt(threshold) {
        score.over(threshold).clamped(single(ZERO_BITS), single(ONE_BITS))
    } else {
        score.clamped(single(ZERO_BITS), single(ONE_BITS))
    }
}

pub fn patch_diff_point(index: usize, score: Binary32, config: AutoGazePatchDiffConfig) -> (r:
    FixationPoint)
    ensures
        r == cell_fixation(ScoredCell { index, score }, config),
{
    let grid_size: usize = max_usize(config.grid_size, 1);
    let row: usize = index / grid_size;
    let col: usize = index % grid_size;
    let cell: Binary32 = single(ONE_BITS).over(Binary32::from_usize(grid_size));
    let confidence: Binary32 = confidence_of_change(score, config.threshold);
    FixationPoint::with_grid_extent(
        middle_in_grid(col, cell),
        middle_in_grid(row, cell),
        cell,
        cell,
        confidence.larger(single(EPSILON_BITS)),
        grid_size,
    )
}

/// The fixations of the changes of one frame: the largest change first, equal changes in the order
/// of their patches.
pub open spec fn change_points(scores: Seq<Binary32>, config: AutoGazePatchDiffConfig) -> Seq<
    FixationPoint,
> {
    let cells = by_rank(changed_cells(scores, scores.len(), config.threshold));
    Seq::new(cells.len(), |i: int| cell_fixation(cells[i], config))
}

fn points_of_changes(scores: &[Binary32], config: AutoGazePatchDiffConfig) -> (r: Vec<
    FixationPoint,
>)
    ensures
        r@ == change_points(scores@, config),
        r@.len() <= scores@.len(),
{
    let mut cells: Vec<ScoredCell> = Vec::new();
    let mut k: usize = 0;
    while k < scores.len()
        invariant
            k <= scores@.len(),
            cells@ == changed_cells(scores@, k as nat, config.threshold),
        decreases scores@.len() - k,
    {
        let score: Binary32 = scores[k];
        if score.is_finite() && config.threshold.lt(score) {
            cells.push(ScoredCell { index: k, score });
        }
        k = k + 1;
    }
    proof {
        lemma_changed_cells(scores@, scores@.len(), config.threshold);
        crate::order::lemma_by_rank(cells@);
    }
    let sorted: Vec<ScoredCell> = sort_by_rank(&cells);
    let mut points: Vec<FixationPoint> = Vec::new();
    let mut i: usize = 0;
    while i < sorted.len()
        invariant
            i <= sorted@.len(),
            points@ == Seq::new(i as nat, |j: int| cell_fixation(sorted@[j], config)),
        decreases sorted@.len() - i,
    {
        let cell: ScoredCell = sorted[i];
        points.push(patch_diff_point(cell.index, cell.score, config));
        i = i + 1;
        assert(points@ =~= Seq::new(i as nat, |j: int| cell_fixation(sorted@[j], config)));
    }
    assert(points@ =~= change_points(scores@, config));
    points
}

/// The points of every frame of every row, and which frame is the current one.
#[derive(Clone, Debug, PartialEq, Eq)]
pub struct PatchDiffReadout {
    pub points: Vec<Vec<Vec<FixationPoint>>>,
    pub frame_index: usize,
    pub model_frames: usize,
    pub stats: AutoGazeReadoutStats,
}

/// The points with confidence among some.
pub open spec fn confident(points: Seq<FixationPoint>) -> nat
    decreases points.len(),
{
    if points.len() == 0 {
        0
    } else {
        confident(points.drop_last()) + (if single(ZERO_BITS).lt(points.last().confidence) {
            1nat
        } else {
            0nat
        })
    }
}

/// The points with confidence in frame `f` of the first `k` rows.
pub open spec fn confident_in(rows: Seq<Vec<Vec<FixationPoint>>>, k: nat, f: int) -> nat
    decreases k,
{
    if k == 0 {
        0
    } else {
        confident_in(rows, (k - 1) as nat, f) + (if 0 <= f < rows[k - 1]@.len() {
            confident(rows[k - 1]@[f]@)
        } else {
            0
        })
    }
}

proof fn lemma_confident(points: Seq<FixationPoint>)
    ensures
        confident(points) <= points.len(),
    decreases points.len(),
{
    if points.len() > 0 {
        lemma_confident(points.drop_last());
    }
}

proof fn lemma_confident_monotone(rows: Seq<Vec<Vec<FixationPoint>>>, k: nat, n: nat, f: int)
    requires
        k <= n,
    ensures
        confident_in(rows, k, f) <= confident_in(rows, n, f),
    decreases n,
{
    if k < n {
        lemma_confident_monotone(rows, k, (n - 1) as nat, f);
    }
}

fn count_confident(points: &[FixationPoint]) -> (r: usize)
    ensures
        r == confident(points@),
{
    let mut count: usize = 0;
    let mut i: usize = 0;
    while i < points.len()
        invariant
            i <= points@.len(),
            count <= i,
            count == confident(points@.take(i as int)),
        decreases points@.len() - i,
    {
        assert(points@.take(i as int + 1).drop_last() =~= points@.take(i as int));
        if single(ZERO_BITS).lt(points[i].confidence) {
            count = count + 1;
        }
        i = i + 1;
    }
    assert(points@.take(i as int) =~= points@);
    count
}

/// Counts the points with confidence of a frame over all rows.
pub fn patch_diff_readout_stats(points: &[Vec<Vec<FixationPoint>>], frame_index: usize) -> (r:
    AutoGazeReadoutStats)
    requires
        confident_in(points@, points@.len(), frame_index as int) <= usize::MAX,
    ensures
        r.generated_tokens == confident_in(points@, points@.len(), frame_index as int),
        r.active_generated_tokens == r.generated_tokens,
        r.padded_generated_tokens == 0,
{
    let mut count: usize = 0;
    let mut b: usize = 0;
    while b < points.len()
        invariant
            b <= points@.len(),
            confident_in(points@, points@.len(), frame_index as int) <= usize::MAX,
            count == confident_in(points@, b as nat, frame_index as int),
        decreases points@.len() - b,
    {
        proof {
            lemma_confident_monotone(
                points@,
                (b + 1) as nat,
                points@.len(),
                frame_index as int,
            );
        }
        if frame_index < points[b].len() {
            count = count + count_confident(&points[b][frame_index]);
        }
        b = b + 1;
    }
    AutoGazeReadoutStats {
        generated_tokens: count,
        active_generated_tokens: count,
        padded_generated_tokens: 0,
    }
}

/// The frames of a row: empty but for the last one.
pub open spec fn row_of_changes(
    scores: Seq<Binary32>,
    time: nat,
    config: AutoGazePatchDiffConfig,
) -> Seq<Seq<FixationPoint>> {
    Seq::new(
        at_least_one(time),
        |f: int|
            if f == at_least_one(time) - 1 {
                change_points(scores, config)
            } else {
                Seq::empty()
            },
    )
}

fn frames_of_changes(scores: &[Binary32], time: usize, config: AutoGazePatchDiffConfig) -> (r: Vec<
    Vec<FixationPoint>,
>)
    ensures
        point_lists(r@) == row_of_changes(scores@, time as nat, config),
        r@.len() == at_least_one(time as nat),
        r@[at_least_one(time as nat) - 1]@.len() <= scores@.len(),
{
    let frames: usize = max_usize(time, 1);
    let mut row: Vec<Vec<FixationPoint>> = Vec::new();
    while row.len() < frames - 1
        invariant
            frames >= 1,
            row@.len() <= frames - 1,
            forall|f: int|
                0 <= f < row@.len() ==> (#[trigger] row@[f])@ == Seq::<FixationPoint>::empty(),
        decreases frames - row.len(),
    {
        row.push(Vec::new());
    }
    row.push(points_of_changes(scores, config));
    assert(point_lists(row@) =~= row_of_changes(scores@, time as nat, config));
    row
}

/// The scores of one row.
pub open spec fn row_scores(scores: Seq<Binary32>, cells: nat, b: int) -> Seq<Binary32> {
    scores.subrange(b * cells, (b + 1) * cells)
}

/// Turns the changes of the patches of every row into fixations of the last frame.
pub fn patch_diff_points_from_scores(
    score_values: &[Binary32],
    batch: usize,
    time: usize,
    config: AutoGazePatchDiffConfig,
) -> (r: Result<PatchDiffReadout, AutoGazeError>)
    ensures
        match r {
            Ok(readout) => {
                &&& score_values@.len() == batch * config.cells()
                &&& readout.points@.len() == batch
                &&& forall|b: int|
                    0 <= b < batch ==> point_lists((#[trigger] readout.points@[b])@)
                        == row_of_changes(
                        row_scores(score_values@, config.cells() as nat, b),
                        time as nat,
                        config.normal(),
                    )
                &&& readout.frame_index == at_least_one(time as nat) - 1
                &&& readout.model_frames == time
                &&& readout.stats.generated_tokens == confident_in(
                    readout.points@,
                    batch as nat,
                    readout.frame_index as int,
                )
                &&& readout.stats.active_generated_tokens == readout.stats.generated_tokens
                &&& readout.stats.padded_generated_tokens == 0
            },
            Err(error) => score_values@.len() != batch * config.cells() && error
                == AutoGazeError::PatchDiffScores,
        },
{
    let total: usize = score_values.len();
    let cells: usize = config.token_budget();
    let config: AutoGazePatchDiffConfig = config.normalized();
    match batch.checked_mul(cells) {
        Some(expected) => {
            if total != expected {
                return Err(AutoGazeError::PatchDiffScores);
            }
        },
        None => {
            return Err(AutoGazeError::PatchDiffScores);
        },
    }
    let frame_index: usize = if time > 0 {
        time - 1
    } else {
        0
    };
    let mut points: Vec<Vec<Vec<FixationPoint>>> = Vec::new();
    let mut b: usize = 0;
    assert(0 * cells == 0) by (nonlinear_arith);
    while b < batch
        invariant
            b <= batch,
            total == score_values@.len(),
            total == batch * cells,
            frame_index == at_least_one(time as nat) - 1,
            points@.len() == b,
            forall|c: int|
                0 <= c < b ==> point_lists((#[trigger] points@[c])@) == row_of_changes(
                    row_scores(score_values@, cells as nat, c),
                    time as nat,
                    config,
                ),
            confident_in(points@, b as nat, frame_index as int) <= b * cells,
        decreases batch - b,
    {
        assert(0 <= b * cells && (b + 1) * cells == b * cells + cells && (b + 1) * cells <= batch
            * cells) by (nonlinear_arith)
            requires
                b + 1 <= batch,
                b >= 0,
                cells >= 0,
        ;
        let start: usize = b * cells;
        let scores: &[Binary32] = slice_subrange(score_values, start, start + cells);
        let row: Vec<Vec<FixationPoint>> = frames_of_changes(scores, time, config);
        let ghost before = points@;
        points.push(row);
        proof {
            lemma_confident(row@[frame_index as int]@);
            lemma_confident_prefix(before, points@, b as nat, frame_index as int);
        }
        b = b + 1;
    }
    let stats: AutoGazeReadoutStats = patch_diff_readout_stats(&points, frame_index);
    Ok(PatchDiffReadout { points, frame_index, model_frames: time, stats })
}

proof fn lemma_confident_prefix(
    before: Seq<Vec<Vec<FixationPoint>>>,
    after: Seq<Vec<Vec<FixationPoint>>>,
    k: nat,
    f: int,
)
    requires
        k <= before.len() <= after.len(),
        forall|i: int| 0 <= i < before.len() ==> before[i] == after[i],
    ensures
        confident_in(before, k, f) == confident_in(after, k, f),
    decreases k,
{
    if k > 0 {
        lemma_confident_prefix(before, after, (k - 1) as nat, f);
    }
}

/// `trace` holds the points of each frame, padded to at least `k`, and stops for certain.
pub open spec fn is_padded_trace(
    trace: FrameFixationTrace,
    frames: Seq<Vec<FixationPoint>>,
    k: nat,
) -> bool {
    &&& trace.frames@.len() == frames.len()
    &&& forall|f: int|
        0 <= f < frames.len() ==> (#[trigger] trace.frames@[f]).points@ == padded_points(
            frames[f]@,
            at_least_one(k),
        ) && trace.frames@[f].stop_probability == unit_clamped(single(ONE_BITS))
}

fn padded_trace(frames: &[Vec<FixationPoint>], k: usize) -> (r: FrameFixationTrace)
    ensures
        is_padded_trace(r, frames@, k as nat),
{
    let mut sets: Vec<FixationSet> = Vec::new();
    let mut f: usize = 0;
    while f < frames.len()
        invariant
            f <= frames@.len(),
            sets@.len() == f,
            forall|g: int|
                0 <= g < f ==> (#[trigger] sets@[g]).points@ == padded_points(
                    frames@[g]@,
                    at_least_one(k as nat),
                ) && sets@[g].stop_probability == unit_clamped(single(ONE_BITS)),
        decreases frames@.len() - f,
    {
        let mut points: Vec<FixationPoint> = Vec::new();
        let mut i: usize = 0;
        while i < frames[f].len()
            invariant
                f < frames@.len(),
                i <= frames@[f as int]@.len(),
                points@ == frames@[f as int]@.take(i as int),
            decreases frames@[f as int]@.len() - i,
        {
            points.push(frames[f][i]);
            i = i + 1;
            assert(points@ =~= frames@[f as int]@.take(i as int));
        }
        assert(points@ =~= frames@[f as int]@);
        sets.push(FixationSet::with_min_len(points, single(ONE_BITS), k));
        f = f + 1;
    }
    FrameFixationTrace::new(sets)
}

/// Traces of the given points, each frame with at least `min_points`.
pub fn patch_diff_points_to_traces(points: &[Vec<Vec<FixationPoint>>], min_points: usize) -> (r: Vec<
    FrameFixationTrace,
>)
    ensures
        r@.len() == points@.len(),
        forall|b: int|
            0 <= b < r@.len() ==> is_padded_trace(
                #[trigger] r@[b],
                points@[b]@,
                min_points as nat,
            ),
{
    let mut traces: Vec<FrameFixationTrace> = Vec::new();
    let mut b: usize = 0;
    while b < points.len()
        invariant
            b <= points@.len(),
            traces@.len() == b,
            forall|c: int|
                0 <= c < b ==> is_padded_trace(
                    #[trigger] traces@[c],
                    points@[c]@,
                    min_points as nat,
                ),
        decreases points@.len() - b,
    {
        traces.push(padded_trace(&points[b], min_points));
        b = b + 1;
    }
    traces
}

/// Every change above the threshold has a fixation.
pub proof fn lemma_changes_selected(scores: Seq<Binary32>, config: AutoGazePatchDiffConfig, i: nat)
    requires
        i < scores.len() <= usize::MAX,
    ensures
        (scores[i as int].finite() && config.threshold.lt(scores[i as int])) ==> change_points(
            scores,
            config,
        ).contains(
            cell_fixation(ScoredCell { index: i as usize, score: scores[i as int] }, config),
        ),
{
    if scores[i as int].finite() && config.threshold.lt(scores[i as int]) {
        let cells = changed_cells(scores, scores.len(), config.threshold);
        let cell = ScoredCell { index: i as usize, score: scores[i as int] };
        lemma_cell_kept(scores, scores.len(), config.threshold, i);
        crate::order::lemma_by_rank(cells);
        let sorted = by_rank(cells);
        crate::order::lemma_ordered_keeps(sorted, cells, cell);
        let j = choose|j: int| 0 <= j < sorted.len() && sorted[j] == cell;
        assert(change_points(scores, config)[j] == cell_fixation(cell, config));
    }
}

proof fn lemma_cell_kept(scores: Seq<Binary32>, k: nat, threshold: Binary32, i: nat)
    requires
        i < k <= scores.len(),
        k <= usize::MAX,
        scores[i as int].finite(),
        threshold.lt(scores[i as int]),
    ensures
        changed_cells(scores, k, threshold).contains(
            ScoredCell { index: i as usize, score: scores[i as int] },
        ),
    decreases k,
{
    let cell = ScoredCell { index: i as usize, score: scores[i as int] };
    let now = changed_cells(scores, k, threshold);
    if i == k - 1 {
        assert(now[now.len() - 1] == cell);
    } else {
        lemma_cell_kept(scores, (k - 1) as nat, threshold, i);
        let before = changed_cells(scores, (k - 1) as nat, threshold);
        let j = choose|j: int| 0 <= j < before.len() && before[j] == cell;
        assert(now[j] == cell);
    }
}

/// Changes show in the last frame only, and each row has its own scores: those of row `b` stand
/// behind the scores of all rows before.
pub proof fn lemma_changes_of_row(
    scores: Seq<Binary32>,
    batch: nat,
    time: nat,
    config: AutoGazePatchDiffConfig,
    b: int,
    i: int,
)
    requires
        0 <= b < batch,
        scores.len() == batch * config.cells(),
        0 <= i < config.cells(),
        time > 0,
    ensures
        ({
            let cells = config.cells() as nat;
            let own = row_scores(scores, cells, b);
            let frames = row_of_changes(own, time, config);
            &&& own.len() == cells
            &&& own[i] == scores[b * cells + i]
            &&& frames.len() == time
            &&& frames[time - 1] == change_points(own, config)
            &&& forall|f: int| 0 <= f < time - 1 ==> (#[trigger] frames[f]).len() == 0
        }),
{
    let cells = config.cells() as int;
    let n = batch as int;
    assert(0 <= b * cells && (b + 1) * cells == b * cells + cells && (b + 1) * cells <= n * cells)
        by (nonlinear_arith)
        requires
            0 <= b,
            b + 1 <= n,
            cells >= 0,
    ;
}

/// The points in frame `f` of the first `k` rows, row by row.
pub open spec fn points_in(rows: Seq<Vec<Vec<FixationPoint>>>, k: nat, f: int) -> Seq<
    FixationPoint,
>
    decreases k,
{
    if k == 0 {
        Seq::empty()
    } else {
        points_in(rows, (k - 1) as nat, f) + (if 0 <= f < rows[k - 1]@.len() {
            rows[k - 1]@[f]@
        } else {
            Seq::empty()
        })
    }
}

/// The number of generated tokens is that of the points of the frame, over all rows, whose
/// confidence is positive.
pub proof fn lemma_confident_points_counted(rows: Seq<Vec<Vec<FixationPoint>>>, k: nat, f: int)
    requires
        k <= rows.len(),
    ensures
        confident_in(rows, k, f) == points_in(rows, k, f).filter(
            |p: FixationPoint| single(ZERO_BITS).lt(p.confidence),
        ).len(),
    decreases k,
{
    let sure = |p: FixationPoint| single(ZERO_BITS).lt(p.confidence);
    if k == 0 {
        reveal(Seq::filter);
    } else {
        lemma_confident_points_counted(rows, (k - 1) as nat, f);
        let before = points_in(rows, (k - 1) as nat, f);
        let row = if 0 <= f < rows[k - 1]@.len() {
            rows[k - 1]@[f]@
        } else {
            Seq::empty()
        };
        Seq::filter_distributes_over_add(before, row, sure);
        lemma_confident_filtered(row);
        assert((before + row).filter(sure) == before.filter(sure) + row.filter(sure));
    }
}

proof fn lemma_confident_filtered(points: Seq<FixationPoint>)
    ensures
        confident(points) == points.filter(
            |p: FixationPoint| single(ZERO_BITS).lt(p.confidence),
        ).len(),
    decreases points.len(),
{
    reveal(Seq::filter);
    if points.len() > 0 {
        lemma_confident_filtered(points.drop_last());
    }
}

} // verus!
