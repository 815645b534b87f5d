//! What a pipeline hands on for one clip.
//!
//! A packet carries traces, points or generated tokens, whichever its consumer asked for. Readouts
//! are taken from the first of these that is there.
use crate::config::AutoGazeConfig;
use crate::decoded::{
    clip_flaw, clip_tokens, clip_tokens_are, frame_tokens, generated_frame_readout_rects,
    generated_frame_readout_tokens, generated_points, generated_to_video_readout_tokens,
    trace_frame_readout_rects, trace_frame_readout_tokens, trace_points,
    trace_to_video_readout_tokens,
};
use crate::error::AutoGazeError;
use crate::frames::AutoGazeTensorClipShape;
use crate::generated::AutoGazeGenerateOutput;
use crate::layout::layouts_fit;
use crate::projection::{
    batched_coords, batched_video_readout_tokens_to_coords, coords_are,
    fixation_points_to_readout_rects, fixation_points_to_readout_tokens,
    frame_readout_tokens_to_video_tokens, readout_rects, readout_tokens, rect_lists, token_lists,
};
use crate::readout::{
    SparseReadoutGrid, SparseReadoutOptions, SparseReadoutRect, SparseVideoReadoutGrid,
    SparseVideoReadoutOptions, SparseVideoReadoutProjection,
};
use crate::stitch::point_lists;
use crate::tiles::AutoGazeInferenceMode;
use crate::trace::{FixationPoint, FrameFixationTrace};
use vstd::prelude::*;

verus! {

/// Where a packet's readouts come from.
pub enum PacketSource {
    Traces,
    Points,
    Generated,
    Nothing,
}

/// What a pipeline hands on for one clip.
#[derive(Debug)]
pub struct AutoGazePipelinePacket {
    pub clip: AutoGazeTensorClipShape,
    pub traces: Vec<FrameFixationTrace>,
    pub generated: Option<AutoGazeGenerateOutput>,
    pub readout_points: Option<Vec<Vec<Vec<FixationPoint>>>>,
    pub model_config: AutoGazeConfig,
    pub mode: AutoGazeInferenceMode,
    pub top_k: usize,
}

/// The points of a frame; none where there is no such frame.
pub open spec fn points_at(frames: Seq<Seq<FixationPoint>>, f: int) -> Seq<FixationPoint> {
    if 0 <= f < frames.len() {
        frames[f]
    } else {
        Seq::empty()
    }
}

/// The regions of frame `f` of every row.
pub open spec fn rects_at(
    rows: Seq<Seq<Seq<FixationPoint>>>,
    f: int,
    options: SparseReadoutOptions,
) -> Seq<Seq<SparseReadoutRect>> {
    Seq::new(rows.len(), |b: int| readout_rects(points_at(rows[b], f), options))
}

/// The image tokens of frame `f` of every row.
pub open spec fn tokens_at(
    rows: Seq<Seq<Seq<FixationPoint>>>,
    f: int,
    grid: SparseReadoutGrid,
    options: SparseReadoutOptions,
) -> Seq<Seq<usize>> {
    Seq::new(
        rows.len(),
        |b: int| readout_tokens(readout_rects(points_at(rows[b], f), options), grid, options),
    )
}

/// What is wrong with projecting one of the first `k` rows onto a video grid.
pub open spec fn rows_flaw(
    rows: Seq<Seq<Seq<FixationPoint>>>,
    k: nat,
    image_grid: SparseReadoutGrid,
    video_grid: SparseVideoReadoutGrid,
    video_options: SparseVideoReadoutOptions,
) -> Option<AutoGazeError>
    decreases k,
{
    if k == 0 {
        None
    } else {
        match rows_flaw(rows, (k - 1) as nat, image_grid, video_grid, video_options) {
            Some(error) => Some(error),
            None => clip_flaw(rows[k - 1].len(), image_grid, video_grid, video_options),
        }
    }
}

proof fn lemma_rows_flaw_stays(
    rows: Seq<Seq<Seq<FixationPoint>>>,
    k: nat,
    n: nat,
    image_grid: SparseReadoutGrid,
    video_grid: SparseVideoReadoutGrid,
    video_options: SparseVideoReadoutOptions,
)
    requires
        k <= n,
        rows_flaw(rows, k, image_grid, video_grid, video_options) is Some,
    ensures
        rows_flaw(rows, n, image_grid, video_grid, video_options) == rows_flaw(
            rows,
            k,
            image_grid,
            video_grid,
            video_options,
        ),
    decreases n,
{
    if k < n {
        lemma_rows_flaw_stays(rows, k, (n - 1) as nat, image_grid, video_grid, video_options);
    }
}

/// The video tokens of every row.
pub open spec fn row_tokens(
    rows: Seq<Seq<Seq<FixationPoint>>>,
    image_grid: SparseReadoutGrid,
    video_grid: SparseVideoReadoutGrid,
    readout_options: SparseReadoutOptions,
    video_options: SparseVideoReadoutOptions,
) -> Seq<Seq<usize>> {
    Seq::new(
        rows.len(),
        |b: int| clip_tokens(rows[b], image_grid, video_grid, readout_options, video_options),
    )
}

/// The video tokens of frames of points.
fn points_to_video_tokens(
    frames: &[Vec<FixationPoint>],
    image_grid: SparseReadoutGrid,
    video_grid: SparseVideoReadoutGrid,
    readout_options: SparseReadoutOptions,
    video_options: SparseVideoReadoutOptions,
) -> (r: Result<Vec<usize>, AutoGazeError>)
    requires
        image_grid.cells() <= usize::MAX,
        video_grid.cells() <= usize::MAX,
    ensures
        clip_tokens_are(
            r,
            point_lists(frames@),
            image_grid,
            video_grid,
            readout_options,
            video_options,
        ),
{
    let ghost points = point_lists(frames@);
    let mut tokens: Vec<Vec<usize>> = Vec::new();
    let mut f: usize = 0;
    while f < frames.len()
        invariant
            f <= frames@.len(),
            points == point_lists(frames@),
            image_grid.cells() <= usize::MAX,
            f > 0 ==> !image_grid.empty(),
            tokens@.len() == f,
            forall|g: int|
                0 <= g < f ==> (#[trigger] tokens@[g])@ == frame_tokens(
                    points,
                    image_grid,
                    readout_options,
                )[g],
        decreases frames@.len() - f,
    {
        assert(points[f as int] == frames@[f as int]@);
        match fixation_points_to_readout_tokens(&frames[f], image_grid, readout_options) {
            Ok(list) => {
                tokens.push(list);
            },
            Err(error) => {
                return Err(error);
            },
        }
        f = f + 1;
    }
    assert(token_lists(tokens@) =~= frame_tokens(points, image_grid, readout_options));
    frame_readout_tokens_to_video_tokens(&tokens, image_grid, video_grid, video_options)
}

impl AutoGazePipelinePacket {
    /// Traces before points, points before generated tokens.
    pub open spec fn source(self) -> PacketSource {
        if self.traces@.len() > 0 {
            PacketSource::Traces
        } else if self.readout_points is Some {
            PacketSource::Points
        } else if self.generated is Some {
            PacketSource::Generated
        } else {
            PacketSource::Nothing
        }
    }

    /// The points of every frame of every row.
    pub open spec fn rows(self) -> Seq<Seq<Seq<FixationPoint>>> {
        match self.source() {
            PacketSource::Traces => Seq::new(
                self.traces@.len(),
                |b: int| trace_points(self.traces@[b]),
            ),
            PacketSource::Points => Seq::new(
                self.readout_points->0@.len(),
                |b: int| point_lists(self.readout_points->0@[b]@),
            ),
            PacketSource::Generated => Seq::new(
                self.generated->0.gazing_pos@.len(),
                |b: int| generated_points(self.generated->0, self.model_config, b),
            ),
            PacketSource::Nothing => Seq::empty(),
        }
    }

    /// Whether generated tokens can be decoded, where they are what is read out.
    pub open spec fn decodable(self) -> bool {
        self.source() is Generated ==> layouts_fit(self.model_config) && self.generated->0.countable(
            self.model_config.num_vision_tokens_each_frame as nat,
        )
    }

    pub fn has_traces(&self) -> (r: bool)
        ensures
            r == (self.traces@.len() > 0),
    {
        self.traces.len() > 0
    }

    pub fn has_generated(&self) -> (r: bool)
        ensures
            r == (self.generated is Some),
    {
        self.generated.is_some()
    }

    pub fn has_readout_points(&self) -> (r: bool)
        ensures
            r == (self.readout_points is Some),
    {
        self.readout_points.is_some()
    }

    /// Refuses masks where there are no traces to draw.
    pub fn check_frame_mask(&self) -> (r: Result<(), AutoGazeError>)
        ensures
            match r {
                Ok(_) => self.traces@.len() > 0,
                Err(error) => self.traces@.len() == 0 && error == AutoGazeError::TracesDisabled,
            },
    {
        if self.has_traces() {
            Ok(())
        } else {
            Err(AutoGazeError::TracesDisabled)
        }
    }

    /// What is wrong with reading out the regions of frame `f`. Only generated tokens know how many
    /// frames there are.
    pub open spec fn rects_flaw(self, f: int) -> Option<AutoGazeError> {
        match self.source() {
            PacketSource::Nothing => Some(AutoGazeError::ReadoutDisabled),
            PacketSource::Generated => if self.rows().len() > 0 && f
                >= self.generated->0.num_gazing_each_frame@.len() {
                Some(AutoGazeError::FrameOutOfRange)
            } else {
                None
            },
            _ => None,
        }
    }

    /// The regions of frame `frame_index`, for every row.
    pub fn frame_readout_rects(&self, frame_index: usize, options: SparseReadoutOptions) -> (r: Result<
        Vec<Vec<SparseReadoutRect>>,
        AutoGazeError,
    >)
        requires
            self.decodable(),
        ensures
            match r {
                Ok(rects) => self.rects_flaw(frame_index as int) is None && rect_lists(rects@)
                    == rects_at(self.rows(), frame_index as int, options),
                Err(error) => self.rects_flaw(frame_index as int) == Some(error),
            },
    {
        let ghost rows = self.rows();
        let ghost expected = rects_at(rows, frame_index as int, options);
        let mut rects: Vec<Vec<SparseReadoutRect>> = Vec::new();
        let mut b: usize = 0;
        if self.has_traces() {
            while b < self.traces.len()
                invariant
                    b <= self.traces@.len(),
                    self.source() is Traces,
                    rows == self.rows(),
                    expected == rects_at(rows, frame_index as int, options),
                    rects@.len() == b,
                    forall|c: int| 0 <= c < b ==> (#[trigger] rects@[c])@ == expected[c],
                decreases self.traces@.len() - b,
            {
                let list: Vec<SparseReadoutRect> = trace_frame_readout_rects(
                    &self.traces[b],
                    frame_index,
                    options,
                );
                proof {
                    assert(rows[b as int] == trace_points(self.traces@[b as int]));
                    assert(list@ =~= expected[b as int]);
                }
                rects.push(list);
                b = b + 1;
            }
            assert(rect_lists(rects@) =~= expected);
            return Ok(rects);
        }
        if let Some(points) = &self.readout_points {
            while b < points.len()
                invariant
                    b <= points@.len(),
                    self.source() is Points,
                    self.readout_points == Some(*points),
                    rows == self.rows(),
                    expected == rects_at(rows, frame_index as int, options),
                    rects@.len() == b,
                    forall|c: int| 0 <= c < b ==> (#[trigger] rects@[c])@ == expected[c],
                decreases points@.len() - b,
            {
                assert(rows[b as int] == point_lists(points@[b as int]@));
                let list: Vec<SparseReadoutRect> = if frame_index < points[b].len() {
                    assert(points_at(rows[b as int], frame_index as int)
                        == points@[b as int]@[frame_index as int]@);
                    fixation_points_to_readout_rects(&points[b][frame_index], options)
                } else {
                    Vec::new()
                };
                assert(list@ =~= expected[b as int]);
                rects.push(list);
                b = b + 1;
            }
            assert(rect_lists(rects@) =~= expected);
            return Ok(rects);
        }
        if let Some(generated) = &self.generated {
            while b < generated.gazing_pos.len()
                invariant
                    b <= generated.gazing_pos@.len(),
                    self.source() is Generated,
                    self.generated == Some(*generated),
                    self.decodable(),
                    rows == self.rows(),
                    expected == rects_at(rows, frame_index as int, options),
                    b > 0 ==> frame_index < generated.num_gazing_each_frame@.len(),
                    rects@.len() == b,
                    forall|c: int| 0 <= c < b ==> (#[trigger] rects@[c])@ == expected[c],
                decreases generated.gazing_pos@.len() - b,
            {
                assert(rows[b as int] == generated_points(*generated, self.model_config, b as int));
                match generated_frame_readout_rects(
                    generated,
                    &self.model_config,
                    b,
                    frame_index,
                    options,
                ) {
                    Ok(list) => {
                        assert(list@ =~= expected[b as int]);
                        rects.push(list);
                    },
                    Err(error) => {
                        return Err(error);
                    },
                }
                b = b + 1;
            }
            assert(rect_lists(rects@) =~= expected);
            return Ok(rects);
        }
        Err(AutoGazeError::ReadoutDisabled)
    }

    /// What is wrong with reading out the image tokens of frame `f`.
    pub open spec fn tokens_flaw(self, f: int, grid: SparseReadoutGrid) -> Option<AutoGazeError> {
        match self.rects_flaw(f) {
            Some(error) => Some(error),
            None => if grid.empty() && self.reads_grid(f) {
                Some(AutoGazeError::EmptyReadoutGrid)
            } else {
                None
            },
        }
    }

    /// Whether some row is projected. Points are projected only where they have the frame.
    pub open spec fn reads_grid(self, f: int) -> bool {
        if self.source() is Points {
            exists|b: int|
                0 <= b < self.rows().len() && 0 <= f < (#[trigger] self.rows()[b]).len()
        } else {
            self.rows().len() > 0
        }
    }

    /// The image tokens of frame `frame_index`, for every row.
    pub fn frame_readout_tokens(
        &self,
        frame_index: usize,
        grid: SparseReadoutGrid,
        options: SparseReadoutOptions,
    ) -> (r: Result<Vec<Vec<usize>>, AutoGazeError>)
        requires
            self.decodable(),
            grid.cells() <= usize::MAX,
        ensures
            match r {
                Ok(tokens) => self.tokens_flaw(frame_index as int, grid) is None && token_lists(
                    tokens@,
                ) == tokens_at(self.rows(), frame_index as int, grid, options),
                Err(error) => self.tokens_flaw(frame_index as int, grid) == Some(error),
            },
    {
        let ghost rows = self.rows();
        let ghost f = frame_index as int;
        let ghost expected = tokens_at(rows, f, grid, options);
        let mut tokens: Vec<Vec<usize>> = Vec::new();
        let mut b: usize = 0;
        if self.has_traces() {
            while b < self.traces.len()
                invariant
                    b <= self.traces@.len(),
                    self.source() is Traces,
                    f == frame_index,
                    grid.cells() <= usize::MAX,
                    rows == self.rows(),
                    expected == tokens_at(rows, f, grid, options),
                    b > 0 ==> !grid.empty(),
                    tokens@.len() == b,
                    forall|c: int| 0 <= c < b ==> (#[trigger] tokens@[c])@ == expected[c],
                decreases self.traces@.len() - b,
            {
                assert(rows[b as int] == trace_points(self.traces@[b as int]));
                match trace_frame_readout_tokens(&self.traces[b], frame_index, grid, options) {
                    Ok(list) => {
                        proof {
                            lemma_no_points(grid, options);
                            assert(list@ =~= expected[b as int]);
                        }
                        tokens.push(list);
                    },
                    Err(error) => {
                        return Err(error);
                    },
                }
                b = b + 1;
            }
            assert(token_lists(tokens@) =~= expected);
            return Ok(tokens);
        }
        if let Some(points) = &self.readout_points {
            while b < points.len()
                invariant
                    b <= points@.len(),
                    self.source() is Points,
                    self.readout_points == Some(*points),
                    f == frame_index,
                    grid.cells() <= usize::MAX,
                    rows == self.rows(),
                    expected == tokens_at(rows, f, grid, options),
                    forall|c: int|
                        0 <= c < b && 0 <= f < (#[trigger] rows[c]).len() ==> !grid.empty(),
                    tokens@.len() == b,
                    forall|c: int| 0 <= c < b ==> (#[trigger] tokens@[c])@ == expected[c],
                decreases points@.len() - b,
            {
                assert(rows[b as int] == point_lists(points@[b as int]@));
                if frame_index < points[b].len() {
                    assert(points_at(rows[b as int], f) == points@[b as int]@[f]@);
                    match fixation_points_to_readout_tokens(
                        &points[b][frame_index],
                        grid,
                        options,
                    ) {
                        Ok(list) => {
                            assert(list@ =~= expected[b as int]);
                            tokens.push(list);
                        },
                        Err(error) => {
                            assert(self.reads_grid(f));
                            return Err(error);
                        },
                    }
                } else {
                    let list: Vec<usize> = Vec::new();
                    proof {
                        lemma_no_points(grid, options);
                        assert(list@ =~= expected[b as int]);
                    }
                    tokens.push(list);
                }
                b = b + 1;
            }
            assert(token_lists(tokens@) =~= expected);
            return Ok(tokens);
        }
        if let Some(generated) = &self.generated {
            while b < generated.gazing_pos.len()
                invariant
                    b <= generated.gazing_pos@.len(),
                    self.source() is Generated,
                    self.generated == Some(*generated),
                    self.decodable(),
                    f == frame_index,
                    grid.cells() <= usize::MAX,
                    rows == self.rows(),
                    expected == tokens_at(rows, f, grid, options),
                    b > 0 ==> f < generated.num_gazing_each_frame@.len() && !grid.empty(),
                    tokens@.len() == b,
                    forall|c: int| 0 <= c < b ==> (#[trigger] tokens@[c])@ == expected[c],
                decreases generated.gazing_pos@.len() - b,
            {
                assert(rows[b as int] == generated_points(*generated, self.model_config, b as int));
                match generated_frame_readout_tokens(
                    generated,
                    &self.model_config,
                    b,
                    frame_index,
                    grid,
                    options,
                ) {
                    Ok(list) => {
                        assert(list@ =~= expected[b as int]);
                        tokens.push(list);
                    },
                    Err(error) => {
                        return Err(error);
                    },
                }
                b = b + 1;
            }
            assert(token_lists(tokens@) =~= expected);
            return Ok(tokens);
        }
        Err(AutoGazeError::ReadoutDisabled)
    }

    /// What is wrong with reading out video tokens.
    pub open spec fn video_flaw(
        self,
        image_grid: SparseReadoutGrid,
        video_grid: SparseVideoReadoutGrid,
        video_options: SparseVideoReadoutOptions,
    ) -> Option<AutoGazeError> {
        if self.source() is Nothing {
            Some(AutoGazeError::ReadoutDisabled)
        } else {
            rows_flaw(self.rows(), self.rows().len(), image_grid, video_grid, video_options)
        }
    }

    /// The video tokens of every row.
    pub fn video_readout_tokens(
        &self,
        image_grid: SparseReadoutGrid,
        video_grid: SparseVideoReadoutGrid,
        readout_options: SparseReadoutOptions,
        video_options: SparseVideoReadoutOptions,
    ) -> (r: Result<Vec<Vec<usize>>, AutoGazeError>)
        requires
            self.decodable(),
            image_grid.cells() <= usize::MAX,
            video_grid.cells() <= usize::MAX,
        ensures
            match r {
                Ok(tokens) => self.video_flaw(image_grid, video_grid, video_options) is None
                    && token_lists(tokens@) == row_tokens(
                    self.rows(),
                    image_grid,
                    video_grid,
                    readout_options,
                    video_options,
                ),
                Err(error) => self.video_flaw(image_grid, video_grid, video_options) == Some(error),
            },
    {
        let ghost rows = self.rows();
        let ghost expected = row_tokens(
            rows,
            image_grid,
            video_grid,
            readout_options,
            video_options,
        );
        let n: usize = if self.has_traces() {
            self.traces.len()
        } else {
            match (&self.readout_points, &self.generated) {
                (Some(points), _) => points.len(),
                (None, Some(generated)) => generated.gazing_pos.len(),
                (None, None) => {
                    return Err(AutoGazeError::ReadoutDisabled);
                },
            }
        };
        let mut tokens: Vec<Vec<usize>> = Vec::new();
        let mut b: usize = 0;
        while b < n
            invariant
                b <= n,
                n == rows.len(),
                rows == self.rows(),
                !(self.source() is Nothing),
                self.decodable(),
                image_grid.cells() <= usize::MAX,
                video_grid.cells() <= usize::MAX,
                expected == row_tokens(
                    rows,
                    image_grid,
                    video_grid,
                    readout_options,
                    video_options,
                ),
                rows_flaw(rows, b as nat, image_grid, video_grid, video_options) is None,
                tokens@.len() == b,
                forall|c: int| 0 <= c < b ==> (#[trigger] tokens@[c])@ == expected[c],
            decreases n - b,
        {
            let row: Result<Vec<usize>, AutoGazeError> = self.row_video_tokens(
                b,
                image_grid,
                video_grid,
                readout_options,
                video_options,
            );
            match row {
                Ok(list) => {
                    assert(list@ =~= expected[b as int]);
                    tokens.push(list);
                },
                Err(error) => {
                    proof {
                        assert(rows_flaw(
                            rows,
                            (b + 1) as nat,
                            image_grid,
                            video_grid,
                            video_options,
                        ) == Some(error));
                        lemma_rows_flaw_stays(
                            rows,
                            (b + 1) as nat,
                            n as nat,
                            image_grid,
                            video_grid,
                            video_options,
                        );
                    }
                    return Err(error);
                },
            }
            b = b + 1;
        }
        assert(token_lists(tokens@) =~= expected);
        Ok(tokens)
    }

    /// The video tokens of one row.
    fn row_video_tokens(
        &self,
        b: usize,
        image_grid: SparseReadoutGrid,
        video_grid: SparseVideoReadoutGrid,
        readout_options: SparseReadoutOptions,
        video_options: SparseVideoReadoutOptions,
    ) -> (r: Result<Vec<usize>, AutoGazeError>)
        requires
            b < self.rows().len(),
            self.decodable(),
            image_grid.cells() <= usize::MAX,
            video_grid.cells() <= usize::MAX,
        ensures
            clip_tokens_are(
                r,
                self.rows()[b as int],
                image_grid,
                video_grid,
                readout_options,
                video_options,
            ),
    {
        if self.has_traces() {
            return trace_to_video_readout_tokens(
                &self.traces[b],
                image_grid,
                video_grid,
                readout_options,
                video_options,
            );
        }
        match (&self.readout_points, &self.generated) {
            (Some(points), _) => points_to_video_tokens(
                &points[b],
                image_grid,
                video_grid,
                readout_options,
                video_options,
            ),
            (None, Some(generated)) => generated_to_video_readout_tokens(
                generated,
                &self.model_config,
                b,
                image_grid,
                video_grid,
                readout_options,
                video_options,
            ),
            (None, None) => {
                assert(false);
                Err(AutoGazeError::ReadoutDisabled)
            },
        }
    }

    pub fn video_readout_tokens_with_projection(
        &self,
        projection: SparseVideoReadoutProjection,
    ) -> (r: Result<Vec<Vec<usize>>, AutoGazeError>)
        requires
            self.decodable(),
            projection.image_grid.cells() <= usize::MAX,
            projection.video_grid.cells() <= usize::MAX,
        ensures
            match r {
                Ok(tokens) => self.video_flaw(
                    projection.image_grid,
                    projection.video_grid,
                    projection.video_options,
                ) is None && token_lists(tokens@) == row_tokens(
                    self.rows(),
                    projection.image_grid,
                    projection.video_grid,
                    projection.readout_options,
                    projection.video_options,
                ),
                Err(error) => self.video_flaw(
                    projection.image_grid,
                    projection.video_grid,
                    projection.video_options,
                ) == Some(error),
            },
    {
        self.video_readout_tokens(
            projection.image_grid,
            projection.video_grid,
            projection.readout_options,
            projection.video_options,
        )
    }

    /// The coordinates of the video tokens of all rows, or what is wrong first.
    pub open spec fn coords(
        self,
        image_grid: SparseReadoutGrid,
        video_grid: SparseVideoReadoutGrid,
        readout_options: SparseReadoutOptions,
        video_options: SparseVideoReadoutOptions,
    ) -> Result<Seq<Seq<u32>>, AutoGazeError> {
        match self.video_flaw(image_grid, video_grid, video_options) {
            Some(error) => Err(error),
            None => batched_coords(
                row_tokens(self.rows(), image_grid, video_grid, readout_options, video_options),
                self.rows().len(),
                video_grid,
            ),
        }
    }

    /// The coordinates of the video tokens of all rows, row by row.
    pub fn video_readout_coords(
        &self,
        image_grid: SparseReadoutGrid,
        video_grid: SparseVideoReadoutGrid,
        readout_options: SparseReadoutOptions,
        video_options: SparseVideoReadoutOptions,
    ) -> (r: Result<Vec<[u32; 4]>, AutoGazeError>)
        requires
            self.decodable(),
            image_grid.cells() <= usize::MAX,
            video_grid.cells() <= usize::MAX,
        ensures
            coords_are(r, self.coords(image_grid, video_grid, readout_options, video_options)),
    {
        match self.video_readout_tokens(image_grid, video_grid, readout_options, video_options) {
            Ok(tokens) => {
                assert(token_lists(tokens@).len() == self.rows().len());
                batched_video_readout_tokens_to_coords(&tokens, video_grid)
            },
            Err(error) => Err(error),
        }
    }

    pub fn video_readout_coords_with_projection(
        &self,
        projection: SparseVideoReadoutProjection,
    ) -> (r: Result<Vec<[u32; 4]>, AutoGazeError>)
        requires
            self.decodable(),
            projection.image_grid.cells() <= usize::MAX,
            projection.video_grid.cells() <= usize::MAX,
        ensures
            coords_are(
                r,
                self.coords(
                    projection.image_grid,
                    projection.video_grid,
                    projection.readout_options,
                    projection.video_options,
                ),
            ),
    {
        self.video_readout_coords(
            projection.image_grid,
            projection.video_grid,
            projection.readout_options,
            projection.video_options,
        )
    }
}

/// No points select no tokens.
proof fn lemma_no_points(grid: SparseReadoutGrid, options: SparseReadoutOptions)
    ensures
        readout_tokens(readout_rects(Seq::empty(), options), grid, options) == Seq::<
            usize,
        >::empty(),
{
    assert(readout_rects(Seq::empty(), options).len() == 0);
    assert(readout_tokens(readout_rects(Seq::empty(), options), grid, options) =~= Seq::<
        usize,
    >::empty());
}

} // verus!
