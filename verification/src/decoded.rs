//! Readouts of whole traces and of generated output.
//!
//! Both come down to the points of each frame. Every frame is projected onto an image grid by
//! itself; a clip is then projected from the image grid onto a video grid.
use crate::config::AutoGazeConfig;
use crate::error::AutoGazeError;
use crate::generated::{
    generated_frame_fixations, generated_to_frame_fixations, AutoGazeGenerateOutput,
    GeneratedFrameFixations,
};
use crate::layout::{layouts_fit, layouts_of};
use crate::projection::{
    coords_are, fixation_points_to_readout_rects, frame_readout_tokens_to_video_tokens,
    frame_token_rects, point_rects, projected_coords, readout_rects, readout_rects_to_tokens,
    readout_tokens, rect_lists, token_lists, token_video_flaw,
    video_readout_tokens_to_coords, video_tokens,
};
use crate::readout::{
    SparseReadoutGrid, SparseReadoutOptions, SparseReadoutRect, SparseVideoReadoutGrid,
    SparseVideoReadoutOptions,
};
use crate::trace::{at_least_one, padded_points, FixationPoint, FrameFixationTrace};
use vstd::prelude::*;

verus! {

/// The points of each frame of a trace.
pub open spec fn trace_points(trace: FrameFixationTrace) -> Seq<Seq<FixationPoint>> {
    Seq::new(trace.frames@.len(), |f: int| trace.frames@[f].points@)
}

/// The points of each frame of a row of generated output.
pub open spec fn generated_points(
    generated: AutoGazeGenerateOutput,
    config: AutoGazeConfig,
    b: int,
) -> Seq<Seq<FixationPoint>> {
    Seq::new(
        generated.num_gazing_each_frame@.len(),
        |f: int|
            generated.frame_points(
                layouts_of(config),
                config.num_vision_tokens_each_frame as nat,
                b,
                f,
            ),
    )
}

/// The regions of each frame.
pub open spec fn frame_rects(
    frames: Seq<Seq<FixationPoint>>,
    options: SparseReadoutOptions,
) -> Seq<Seq<SparseReadoutRect>> {
    Seq::new(frames.len(), |f: int| readout_rects(frames[f], options))
}

/// The image tokens of each frame.
pub open spec fn frame_tokens(
    frames: Seq<Seq<FixationPoint>>,
    grid: SparseReadoutGrid,
    options: SparseReadoutOptions,
) -> Seq<Seq<usize>> {
    Seq::new(
        frames.len(),
        |f: int| readout_tokens(readout_rects(frames[f], options), grid, options),
    )
}

/// What is wrong with projecting `n` frames onto an image grid.
pub open spec fn frames_flaw(n: nat, grid: SparseReadoutGrid) -> Option<AutoGazeError> {
    if n > 0 && grid.empty() {
        Some(AutoGazeError::EmptyReadoutGrid)
    } else {
        None
    }
}

/// What is wrong with projecting `n` frames onto a video grid by way of an image grid.
pub open spec fn clip_flaw(
    n: nat,
    image_grid: SparseReadoutGrid,
    video_grid: SparseVideoReadoutGrid,
    video_options: SparseVideoReadoutOptions,
) -> Option<AutoGazeError> {
    match frames_flaw(n, image_grid) {
        Some(error) => Some(error),
        None => token_video_flaw(image_grid, video_grid, video_options),
    }
}

/// The video tokens of a clip.
pub open spec fn clip_tokens(
    frames: Seq<Seq<FixationPoint>>,
    image_grid: SparseReadoutGrid,
    video_grid: SparseVideoReadoutGrid,
    readout_options: SparseReadoutOptions,
    video_options: SparseVideoReadoutOptions,
) -> Seq<usize> {
    video_tokens(
        frame_token_rects(frame_tokens(frames, image_grid, readout_options), image_grid),
        video_grid,
        video_options,
    )
}

/// `r` is the image tokens of each frame, or what is wrong.
pub open spec fn frame_tokens_are(
    r: Result<Vec<Vec<usize>>, AutoGazeError>,
    frames: Seq<Seq<FixationPoint>>,
    grid: SparseReadoutGrid,
    options: SparseReadoutOptions,
) -> bool {
    match r {
        Ok(tokens) => frames_flaw(frames.len(), grid) is None && token_lists(tokens@)
            == frame_tokens(frames, grid, options),
        Err(error) => frames_flaw(frames.len(), grid) == Some(error),
    }
}

/// `r` is the video tokens of a clip, or what is wrong.
pub open spec fn clip_tokens_are(
    r: Result<Vec<usize>, AutoGazeError>,
    frames: Seq<Seq<FixationPoint>>,
    image_grid: SparseReadoutGrid,
    video_grid: SparseVideoReadoutGrid,
    readout_options: SparseReadoutOptions,
    video_options: SparseVideoReadoutOptions,
) -> bool {
    match r {
        Ok(tokens) => clip_flaw(frames.len(), image_grid, video_grid, video_options) is None
            && tokens@ == clip_tokens(
            frames,
            image_grid,
            video_grid,
            readout_options,
            video_options,
        ),
        Err(error) => clip_flaw(frames.len(), image_grid, video_grid, video_options) == Some(
            error,
        ),
    }
}

/// The regions of one frame of a trace; none where there is no such frame.
pub fn trace_frame_readout_rects(
    trace: &FrameFixationTrace,
    frame_index: usize,
    options: SparseReadoutOptions,
) -> (r: Vec<SparseReadoutRect>)
    ensures
        r@ == (if frame_index < trace.frames@.len() {
            readout_rects(trace_points(*trace)[frame_index as int], options)
        } else {
            Seq::empty()
        }),
{
    if frame_index < trace.frames.len() {
        fixation_points_to_readout_rects(&trace.frames[frame_index].points, options)
    } else {
        Vec::new()
    }
}

/// The regions of every frame of a trace.
pub fn trace_to_frame_readout_rects(
    trace: &FrameFixationTrace,
    options: SparseReadoutOptions,
) -> (r: Vec<Vec<SparseReadoutRect>>)
    ensures
        rect_lists(r@) == frame_rects(trace_points(*trace), options),
{
    let mut frames: Vec<Vec<SparseReadoutRect>> = Vec::new();
    let mut f: usize = 0;
    while f < trace.frames.len()
        invariant
            f <= trace.frames@.len(),
            frames@.len() == f,
            forall|g: int|
                0 <= g < f ==> (#[trigger] frames@[g])@ == readout_rects(
                    trace_points(*trace)[g],
                    options,
                ),
        decreases trace.frames@.len() - f,
    {
        frames.push(trace_frame_readout_rects(trace, f, options));
        f = f + 1;
    }
    assert(rect_lists(frames@) =~= frame_rects(trace_points(*trace), options));
    frames
}

/// The image tokens of one frame of a trace; none where there is no such frame.
pub fn trace_frame_readout_tokens(
    trace: &FrameFixationTrace,
    frame_index: usize,
    grid: SparseReadoutGrid,
    options: SparseReadoutOptions,
) -> (r: Result<Vec<usize>, AutoGazeError>)
    requires
        grid.cells() <= usize::MAX,
    ensures
        match r {
            Ok(tokens) => !grid.empty() && tokens@ == (if frame_index < trace.frames@.len() {
                frame_tokens(trace_points(*trace), grid, options)[frame_index as int]
            } else {
                Seq::empty()
            }),
            Err(error) => grid.empty() && error == AutoGazeError::EmptyReadoutGrid,
        },
{
    let rects: Vec<SparseReadoutRect> = trace_frame_readout_rects(trace, frame_index, options);
    let r: Result<Vec<usize>, AutoGazeError> = readout_rects_to_tokens(&rects, grid, options);
    proof {
        if frame_index >= trace.frames@.len() {
            assert(rects@.len() == 0);
            assert(readout_tokens(rects@, grid, options) =~= Seq::empty());
        }
    }
    r
}

/// The image tokens of every frame of a trace.
pub fn trace_to_frame_readout_tokens(
    trace: &FrameFixationTrace,
    grid: SparseReadoutGrid,
    options: SparseReadoutOptions,
) -> (r: Result<Vec<Vec<usize>>, AutoGazeError>)
    requires
        grid.cells() <= usize::MAX,
    ensures
        frame_tokens_are(r, trace_points(*trace), grid, options),
{
    let mut frames: Vec<Vec<usize>> = Vec::new();
    let mut f: usize = 0;
    while f < trace.frames.len()
        invariant
            f <= trace.frames@.len(),
            grid.cells() <= usize::MAX,
            f > 0 ==> !grid.empty(),
            frames@.len() == f,
            forall|g: int|
                0 <= g < f ==> (#[trigger] frames@[g])@ == frame_tokens(
                    trace_points(*trace),
                    grid,
                    options,
                )[g],
        decreases trace.frames@.len() - f,
    {
        match trace_frame_readout_tokens(trace, f, grid, options) {
            Ok(tokens) => {
                frames.push(tokens);
            },
            Err(error) => {
                return Err(error);
            },
        }
        f = f + 1;
    }
    assert(token_lists(frames@) =~= frame_tokens(trace_points(*trace), grid, options));
    Ok(frames)
}

/// The regions of one frame of generated output.
pub fn generated_frame_readout_rects(
    generated: &AutoGazeGenerateOutput,
    config: &AutoGazeConfig,
    batch_index: usize,
    frame_index: usize,
    options: SparseReadoutOptions,
) -> (r: Result<Vec<SparseReadoutRect>, AutoGazeError>)
    requires
        layouts_fit(*config),
        generated.countable(config.num_vision_tokens_each_frame as nat),
    ensures
        match r {
            Ok(rects) => {
                &&& batch_index < generated.gazing_pos@.len()
                &&& frame_index < generated.num_gazing_each_frame@.len()
                &&& rects@ == readout_rects(
                    generated_points(*generated, *config, batch_index as int)[frame_index as int],
                    options,
                )
            },
            Err(error) => generated_flaw(*generated, batch_index as int, frame_index as int)
                == Some(error),
        },
{
    match generated_frame_fixations(generated, config, batch_index, frame_index) {
        Some(frame) => Ok(fixation_points_to_readout_rects(&frame.points, options)),
        None => if batch_index >= generated.gazing_pos.len() {
            Err(AutoGazeError::BatchOutOfRange)
        } else {
            Err(AutoGazeError::FrameOutOfRange)
        },
    }
}

/// What is wrong with asking for a frame of a row.
pub open spec fn generated_flaw(
    generated: AutoGazeGenerateOutput,
    b: int,
    f: int,
) -> Option<AutoGazeError> {
    if b >= generated.gazing_pos@.len() {
        Some(AutoGazeError::BatchOutOfRange)
    } else if f >= generated.num_gazing_each_frame@.len() {
        Some(AutoGazeError::FrameOutOfRange)
    } else {
        None
    }
}

/// The regions of every frame of a row of generated output.
pub fn generated_to_frame_readout_rects(
    generated: &AutoGazeGenerateOutput,
    config: &AutoGazeConfig,
    batch_index: usize,
    options: SparseReadoutOptions,
) -> (r: Result<Vec<Vec<SparseReadoutRect>>, AutoGazeError>)
    requires
        layouts_fit(*config),
        generated.countable(config.num_vision_tokens_each_frame as nat),
    ensures
        match r {
            Ok(rects) => batch_index < generated.gazing_pos@.len() && rect_lists(rects@)
                == frame_rects(generated_points(*generated, *config, batch_index as int), options),
            Err(error) => batch_index >= generated.gazing_pos@.len() && error
                == AutoGazeError::BatchOutOfRange,
        },
{
    if batch_index >= generated.gazing_pos.len() {
        return Err(AutoGazeError::BatchOutOfRange);
    }
    let ghost points = generated_points(*generated, *config, batch_index as int);
    let fixations: Vec<GeneratedFrameFixations> = generated_to_frame_fixations(
        generated,
        config,
        batch_index,
    );
    let mut frames: Vec<Vec<SparseReadoutRect>> = Vec::new();
    let mut f: usize = 0;
    while f < fixations.len()
        invariant
            f <= fixations@.len(),
            fixations@.len() == points.len(),
            forall|g: int| 0 <= g < points.len() ==> (#[trigger] fixations@[g]).points@ == points[g],
            frames@.len() == f,
            forall|g: int|
                0 <= g < f ==> (#[trigger] frames@[g])@ == readout_rects(points[g], options),
        decreases fixations@.len() - f,
    {
        frames.push(fixation_points_to_readout_rects(&fixations[f].points, options));
        f = f + 1;
    }
    assert(rect_lists(frames@) =~= frame_rects(points, options));
    Ok(frames)
}

/// The image tokens of one frame of generated output.
pub fn generated_frame_readout_tokens(
    generated: &AutoGazeGenerateOutput,
    config: &AutoGazeConfig,
    batch_index: usize,
    frame_index: usize,
    grid: SparseReadoutGrid,
    options: SparseReadoutOptions,
) -> (r: Result<Vec<usize>, AutoGazeError>)
    requires
        layouts_fit(*config),
        generated.countable(config.num_vision_tokens_each_frame as nat),
        grid.cells() <= usize::MAX,
    ensures
        match r {
            Ok(tokens) => {
                &&& generated_flaw(*generated, batch_index as int, frame_index as int) is None
                &&& !grid.empty()
                &&& tokens@ == frame_tokens(
                    generated_points(*generated, *config, batch_index as int),
                    grid,
                    options,
                )[frame_index as int]
            },
            Err(error) => match generated_flaw(
                *generated,
                batch_index as int,
                frame_index as int,
            ) {
                Some(flaw) => error == flaw,
                None => grid.empty() && error == AutoGazeError::EmptyReadoutGrid,
            },
        },
{
    match generated_frame_readout_rects(generated, config, batch_index, frame_index, options) {
        Ok(rects) => readout_rects_to_tokens(&rects, grid, options),
        Err(error) => Err(error),
    }
}

/// The image tokens of every frame of a row of generated output.
pub fn generated_to_frame_readout_tokens(
    generated: &AutoGazeGenerateOutput,
    config: &AutoGazeConfig,
    batch_index: usize,
    grid: SparseReadoutGrid,
    options: SparseReadoutOptions,
) -> (r: Result<Vec<Vec<usize>>, AutoGazeError>)
    requires
        layouts_fit(*config),
        generated.countable(config.num_vision_tokens_each_frame as nat),
        grid.cells() <= usize::MAX,
    ensures
        if batch_index >= generated.gazing_pos@.len() {
            r matches Err(error) && error == AutoGazeError::BatchOutOfRange
        } else {
            frame_tokens_are(
                r,
                generated_points(*generated, *config, batch_index as int),
                grid,
                options,
            )
        },
{
    let rects: Vec<Vec<SparseReadoutRect>> = match generated_to_frame_readout_rects(
        generated,
        config,
        batch_index,
        options,
    ) {
        Ok(rects) => rects,
        Err(error) => {
            return Err(error);
        },
    };
    let ghost points = generated_points(*generated, *config, batch_index as int);
    let mut frames: Vec<Vec<usize>> = Vec::new();
    let mut f: usize = 0;
    assert(rects@.len() == rect_lists(rects@).len());
    while f < rects.len()
        invariant
            f <= rects@.len(),
            rects@.len() == points.len(),
            rect_lists(rects@) == frame_rects(points, options),
            grid.cells() <= usize::MAX,
            batch_index < generated.gazing_pos@.len(),
            points == generated_points(*generated, *config, batch_index as int),
            f > 0 ==> !grid.empty(),
            frames@.len() == f,
            forall|g: int|
                0 <= g < f ==> (#[trigger] frames@[g])@ == frame_tokens(points, grid, options)[g],
        decreases rects@.len() - f,
    {
        assert(rects@[f as int]@ == rect_lists(rects@)[f as int]);
        match readout_rects_to_tokens(&rects[f], grid, options) {
            Ok(tokens) => {
                frames.push(tokens);
            },
            Err(error) => {
                return Err(error);
            },
        }
        f = f + 1;
    }
    assert(token_lists(frames@) =~= frame_tokens(points, grid, options));
    Ok(frames)
}

/// The video tokens of a trace.
pub fn trace_to_video_readout_tokens(
    trace: &FrameFixationTrace,
    image_grid: SparseReadoutGrid,
    video_grid: SparseVideoReadoutGrid,
    readout_options: SparseReadoutOptions,
    video_options: SparseVideoReadoutOptions,
) -> (r: Result<Vec<usize>, AutoGazeError>)
    requires
        image_grid.cells() <= usize::MAX,
        video_grid.cells() <= usize::MAX,
    ensures
        clip_tokens_are(
            r,
            trace_points(*trace),
            image_grid,
            video_grid,
            readout_options,
            video_options,
        ),
{
    match trace_to_frame_readout_tokens(trace, image_grid, readout_options) {
        Ok(tokens) => frame_readout_tokens_to_video_tokens(
            &tokens,
            image_grid,
            video_grid,
            video_options,
        ),
        Err(error) => Err(error),
    }
}

/// The video coordinates of a trace.
pub fn trace_to_video_readout_coords(
    trace: &FrameFixationTrace,
    image_grid: SparseReadoutGrid,
    video_grid: SparseVideoReadoutGrid,
    readout_options: SparseReadoutOptions,
    video_options: SparseVideoReadoutOptions,
    batch_index: usize,
) -> (r: Result<Vec<[u32; 4]>, AutoGazeError>)
    requires
        image_grid.cells() <= usize::MAX,
        video_grid.cells() <= usize::MAX,
    ensures
        coords_are(
            r,
            projected_coords(
                clip_flaw(trace.frames@.len(), image_grid, video_grid, video_options),
                clip_tokens(
                    trace_points(*trace),
                    image_grid,
                    video_grid,
                    readout_options,
                    video_options,
                ),
                video_grid,
                batch_index as nat,
            ),
        ),
{
    match trace_to_video_readout_tokens(
        trace,
        image_grid,
        video_grid,
        readout_options,
        video_options,
    ) {
        Ok(tokens) => video_readout_tokens_to_coords(&tokens, video_grid, batch_index),
        Err(error) => Err(error),
    }
}

/// What is wrong with projecting a row of generated output onto a video grid.
pub open spec fn generated_clip_flaw(
    generated: AutoGazeGenerateOutput,
    b: int,
    image_grid: SparseReadoutGrid,
    video_grid: SparseVideoReadoutGrid,
    video_options: SparseVideoReadoutOptions,
) -> Option<AutoGazeError> {
    if b >= generated.gazing_pos@.len() {
        Some(AutoGazeError::BatchOutOfRange)
    } else {
        clip_flaw(
            generated.num_gazing_each_frame@.len(),
            image_grid,
            video_grid,
            video_options,
        )
    }
}

/// The video tokens of a row of generated output.
pub fn generated_to_video_readout_tokens(
    generated: &AutoGazeGenerateOutput,
    config: &AutoGazeConfig,
    batch_index: usize,
    image_grid: SparseReadoutGrid,
    video_grid: SparseVideoReadoutGrid,
    readout_options: SparseReadoutOptions,
    video_options: SparseVideoReadoutOptions,
) -> (r: Result<Vec<usize>, AutoGazeError>)
    requires
        layouts_fit(*config),
        generated.countable(config.num_vision_tokens_each_frame as nat),
        image_grid.cells() <= usize::MAX,
        video_grid.cells() <= usize::MAX,
    ensures
        match r {
            Ok(tokens) => generated_clip_flaw(
                *generated,
                batch_index as int,
                image_grid,
                video_grid,
                video_options,
            ) is None && tokens@ == clip_tokens(
                generated_points(*generated, *config, batch_index as int),
                image_grid,
                video_grid,
                readout_options,
                video_options,
            ),
            Err(error) => generated_clip_flaw(
                *generated,
                batch_index as int,
                image_grid,
                video_grid,
                video_options,
            ) == Some(error),
        },
{
    match generated_to_frame_readout_tokens(
        generated,
        config,
        batch_index,
        image_grid,
        readout_options,
    ) {
        Ok(tokens) => frame_readout_tokens_to_video_tokens(
            &tokens,
            image_grid,
            video_grid,
            video_options,
        ),
        Err(error) => Err(error),
    }
}

/// The video coordinates of a row of generated output.
pub fn generated_to_video_readout_coords(
    generated: &AutoGazeGenerateOutput,
    config: &AutoGazeConfig,
    batch_index: usize,
    image_grid: SparseReadoutGrid,
    video_grid: SparseVideoReadoutGrid,
    readout_options: SparseReadoutOptions,
    video_options: SparseVideoReadoutOptions,
) -> (r: Result<Vec<[u32; 4]>, AutoGazeError>)
    requires
        layouts_fit(*config),
        generated.countable(config.num_vision_tokens_each_frame as nat),
        image_grid.cells() <= usize::MAX,
        video_grid.cells() <= usize::MAX,
    ensures
        coords_are(
            r,
            projected_coords(
                generated_clip_flaw(
                    *generated,
                    batch_index as int,
                    image_grid,
                    video_grid,
                    video_options,
                ),
                clip_tokens(
                    generated_points(*generated, *config, batch_index as int),
                    image_grid,
                    video_grid,
                    readout_options,
                    video_options,
                ),
                video_grid,
                batch_index as nat,
            ),
        ),
{
    match generated_to_video_readout_tokens(
        generated,
        config,
        batch_index,
        image_grid,
        video_grid,
        readout_options,
        video_options,
    ) {
        Ok(tokens) => video_readout_tokens_to_coords(&tokens, video_grid, batch_index),
        Err(error) => Err(error),
    }
}

proof fn lemma_padding_prefix(
    points: Seq<FixationPoint>,
    len: nat,
    k: nat,
    options: SparseReadoutOptions,
)
    requires
        k <= padded_points(points, len).len(),
    ensures
        point_rects(padded_points(points, len), k, options) == point_rects(
            points,
            if k <= points.len() {
                k
            } else {
                points.len()
            },
            options,
        ),
    decreases k,
{
    if k > 0 {
        lemma_padding_prefix(points, len, (k - 1) as nat, options);
        if k > points.len() {
            assert(padded_points(points, len)[k - 1] == FixationPoint::placeholder());
        }
    }
}

/// A trace made from generated output has the regions and the image tokens of that output:
/// placeholders select nothing.
pub proof fn lemma_trace_matches_generated(
    generated: AutoGazeGenerateOutput,
    config: AutoGazeConfig,
    trace: FrameFixationTrace,
    b: int,
    k: nat,
    grid: SparseReadoutGrid,
    options: SparseReadoutOptions,
)
    requires
        generated.is_trace(trace, config, b, k),
    ensures
        frame_rects(trace_points(trace), options) == frame_rects(
            generated_points(generated, config, b),
            options,
        ),
        frame_tokens(trace_points(trace), grid, options) == frame_tokens(
            generated_points(generated, config, b),
            grid,
            options,
        ),
{
    let made = trace_points(trace);
    let given = generated_points(generated, config, b);
    assert forall|f: int| 0 <= f < made.len() implies readout_rects(#[trigger] made[f], options)
        == readout_rects(given[f], options) by {
        assert(trace.frames@[f].points@ == padded_points(given[f], at_least_one(k)));
        lemma_padding_prefix(given[f], at_least_one(k), made[f].len(), options);
    }
    assert(frame_rects(made, options) =~= frame_rects(given, options));
    assert(frame_tokens(made, grid, options) =~= frame_tokens(given, grid, options));
}

} // verus!
