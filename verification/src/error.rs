//! Errors and their messages.
use crate::text::{append_decimal, decimal};
use vstd::prelude::*;
use vstd::string::StringExecFns;

verus! {

/// Why a request was refused.
#[derive(Clone, Copy, Debug, PartialEq, Eq, Structural)]
pub enum AutoGazeError {
    /// The token count is zero.
    EmptyTokenCount,
    /// The token count is no square number.
    TokenCountNotSquare,
    /// The video has no frames.
    NoVideoFrames,
    /// The video has no pixels.
    EmptyVideoDimensions,
    /// The tubelet spans no frames.
    EmptyTubelet,
    /// The patch has no pixels.
    EmptyPatch,
    /// The frames do not fill tubelets.
    FramesNotDivisible,
    /// The rows do not fill patches.
    HeightNotDivisible,
    /// The columns do not fill patches.
    WidthNotDivisible,
    /// The readout grid has no cells.
    EmptyReadoutGrid,
    /// There is no such batch row.
    BatchOutOfRange,
    /// There is no such frame.
    FrameOutOfRange,
    /// The image grid has no cells.
    EmptyImageGrid,
    /// The video grid has no cells.
    EmptyVideoGrid,
    /// The readout tubelet spans no frames.
    EmptyReadoutTubelet,
    /// The token lies outside the video grid.
    TokenOutsideGrid,
    /// The batch index does not fit a coordinate.
    BatchExceedsCoordinate,
    /// The temporal bin does not fit a coordinate.
    TemporalBinExceedsCoordinate,
    /// The row does not fit a coordinate.
    RowExceedsCoordinate,
    /// The column does not fit a coordinate.
    ColumnExceedsCoordinate,
    /// The clip has no frames or no pixels.
    EmptyRgbaClip,
    /// The pixels of the clip cannot be counted.
    RgbaClipDimensionsOverflow,
    /// The bytes of the clip cannot be counted.
    RgbaClipBytesOverflow,
    /// The bytes of a frame cannot be counted.
    RgbaFrameBytesOverflow,
    /// The bytes of a resized frame cannot be counted.
    ResizedFrameBytesOverflow,
    /// The tensor clip has an empty dimension.
    EmptyTensorClip,
    /// The bytes of a queued clip cannot be counted.
    QueueClipBytesOverflow,
    /// The bytes of a queued frame cannot be counted.
    QueueFrameBytesOverflow,
    /// The packet carries no traces.
    TracesDisabled,
    /// The packet carries nothing to read out.
    ReadoutDisabled,
    /// Generated tokens are asked for in a tiled mode.
    GeneratedNeedsResize,
    /// The mask has no batch rows.
    EmptyMaskBatch,
    /// The mask has no pixels.
    EmptyMask,
    /// There is no trace.
    NoTraces,
    /// The image has no batch rows.
    EmptyImageBatch,
    /// The image has no channels.
    EmptyImageChannels,
    /// The image has no pixels.
    EmptyImage,
    /// The mask fits neither one image nor all.
    MaskBatchMismatch,
    /// The mask has no channels.
    EmptyMaskChannels,
    /// The pyramid has no levels.
    EmptyPyramid,
    /// The pyramid has no tokens.
    EmptyPyramidTokens,
    /// The pyramid tokens have no channels.
    EmptyPyramidChannels,
    /// The video has no batch rows.
    PatchDiffBatch,
    /// The video has no frames.
    PatchDiffTime,
    /// The video has no channels.
    PatchDiffChannels,
    /// The video has no pixels.
    PatchDiffSpace,
    /// The mask has no pixels.
    PatchDiffMask,
    /// The mask is asked for more than one batch row.
    PatchDiffMaskBatch,
    /// The score grid is not the configured one.
    PatchDiffGrid,
    /// The scores do not fill the grid.
    PatchDiffScores,
    /// The clip holds another number of bytes.
    ClipBytes { expected: usize, frames: usize, width: usize, height: usize, got: usize },
    /// The buffer holds another number of bytes.
    RgbaBytes { expected: usize, got: usize },
    /// A queued frame holds another number of bytes.
    QueueFrameBytes { expected: usize, width: usize, height: usize, got: usize },
    /// The video has no such frame.
    FrameIndexOutOfBounds { index: usize, frames: usize },
    /// The clip has no such frame.
    FrameIndexOutsideClip { index: usize, frames: usize },
    /// The frames are not of the model's input size.
    ModelInputNotSquare { side: usize, height: usize, width: usize },
    /// The clip holds another number of values.
    FrameValues { expected: usize, clip_len: usize, channels: usize, height: usize, width: usize, got: usize },
}

impl AutoGazeError {
    /// What the message says.
    pub open spec fn text(self) -> Seq<char> {
        match self {
            AutoGazeError::EmptyTokenCount => "sparse readout token count must be nonzero"@,
            AutoGazeError::TokenCountNotSquare => "sparse readout token count must form a square grid"@,
            AutoGazeError::NoVideoFrames => "sparse video frame count must be nonzero"@,
            AutoGazeError::EmptyVideoDimensions => "sparse video dimensions must be nonzero"@,
            AutoGazeError::EmptyTubelet => "sparse video tubelet size must be nonzero"@,
            AutoGazeError::EmptyPatch => "sparse video patch dimensions must be nonzero"@,
            AutoGazeError::FramesNotDivisible => "video frames must be divisible by sparse video tubelet size"@,
            AutoGazeError::HeightNotDivisible => "video height must be divisible by sparse video patch height"@,
            AutoGazeError::WidthNotDivisible => "video width must be divisible by sparse video patch width"@,
            AutoGazeError::EmptyReadoutGrid => "sparse readout grid dimensions must be nonzero"@,
            AutoGazeError::BatchOutOfRange => "generated AutoGaze batch index out of range"@,
            AutoGazeError::FrameOutOfRange => "generated AutoGaze frame index out of range"@,
            AutoGazeError::EmptyImageGrid => "sparse image readout grid dimensions must be nonzero"@,
            AutoGazeError::EmptyVideoGrid => "sparse video readout grid dimensions must be nonzero"@,
            AutoGazeError::EmptyReadoutTubelet => "sparse video readout tubelet size must be nonzero"@,
            AutoGazeError::TokenOutsideGrid => "sparse video readout token index outside grid"@,
            AutoGazeError::BatchExceedsCoordinate => "sparse video readout batch index exceeds u32"@,
            AutoGazeError::TemporalBinExceedsCoordinate => "sparse video readout temporal bin exceeds u32"@,
            AutoGazeError::RowExceedsCoordinate => "sparse video readout row exceeds u32"@,
            AutoGazeError::ColumnExceedsCoordinate => "sparse video readout col exceeds u32"@,
            AutoGazeError::EmptyRgbaClip => "RGBA clip dimensions must be nonzero"@,
            AutoGazeError::RgbaClipDimensionsOverflow => "RGBA clip dimensions overflow"@,
            AutoGazeError::RgbaClipBytesOverflow => "RGBA clip byte length overflow"@,
            AutoGazeError::RgbaFrameBytesOverflow => "RGBA frame byte length overflow"@,
            AutoGazeError::ResizedFrameBytesOverflow => "resized RGBA frame byte length overflow"@,
            AutoGazeError::EmptyTensorClip => "AutoGaze tensor clip dimensions must be nonzero"@,
            AutoGazeError::QueueClipBytesOverflow => "AutoGaze clip byte length overflow"@,
            AutoGazeError::QueueFrameBytesOverflow => "AutoGaze frame byte length overflow"@,
            AutoGazeError::TracesDisabled => "AutoGaze traces are disabled for this packet; set AutoGazeTensorPipelineConfig::emit_traces to true"@,
            AutoGazeError::ReadoutDisabled => "AutoGaze readout is disabled for this packet; set AutoGazeTensorPipelineConfig::emit_traces, emit_readout_points, or emit_generated to true"@,
            AutoGazeError::GeneratedNeedsResize => "AutoGaze generated packets are only available in resize-to-model-input mode; enable emit_readout_points or emit_traces for tiled global readout"@,
            AutoGazeError::EmptyMaskBatch => "mask batch must be nonzero"@,
            AutoGazeError::EmptyMask => "mask dimensions must be nonzero"@,
            AutoGazeError::NoTraces => "at least one fixation trace is required"@,
            AutoGazeError::EmptyImageBatch => "image batch must be nonzero"@,
            AutoGazeError::EmptyImageChannels => "image channels must be nonzero"@,
            AutoGazeError::EmptyImage => "image dimensions must be nonzero"@,
            AutoGazeError::MaskBatchMismatch => "mask batch must be 1 or match image batch"@,
            AutoGazeError::EmptyMaskChannels => "mask channels must be nonzero"@,
            AutoGazeError::EmptyPyramid => "image pyramid must contain at least one level"@,
            AutoGazeError::EmptyPyramidTokens => "image pyramid tokens must be nonempty"@,
            AutoGazeError::EmptyPyramidChannels => "image pyramid token channels must be nonzero"@,
            AutoGazeError::PatchDiffBatch => "patch-diff video batch must be nonzero"@,
            AutoGazeError::PatchDiffTime => "patch-diff video clip length must be nonzero"@,
            AutoGazeError::PatchDiffChannels => "patch-diff video channels must be nonzero"@,
            AutoGazeError::PatchDiffSpace => "patch-diff video spatial dimensions must be nonzero"@,
            AutoGazeError::PatchDiffMask => "patch-diff mask dimensions must be nonzero"@,
            AutoGazeError::PatchDiffMaskBatch => "patch-diff device mask currently supports one visualization batch"@,
            AutoGazeError::PatchDiffGrid => "patch-diff score grid must match patch-diff config"@,
            AutoGazeError::PatchDiffScores => "patch-diff score tensor length must match batch and grid size"@,
            AutoGazeError::ClipBytes { expected, frames, width, height, got } => "expected "@ + decimal(expected as nat) + " RGBA bytes for "@ + decimal(frames as nat) + " frame(s) at "@ + decimal(width as nat) + "x"@ + decimal(height as nat) + ", got "@ + decimal(got as nat),
            AutoGazeError::RgbaBytes { expected, got } => "expected "@ + decimal(expected as nat) + " RGBA bytes, got "@ + decimal(got as nat),
            AutoGazeError::QueueFrameBytes { expected, width, height, got } => "expected "@ + decimal(expected as nat) + " RGBA bytes for "@ + decimal(width as nat) + "x"@ + decimal(height as nat) + ", got "@ + decimal(got as nat),
            AutoGazeError::FrameIndexOutOfBounds { index, frames } => "frame index "@ + decimal(index as nat) + " is out of bounds for "@ + decimal(frames as nat) + " frame(s)"@,
            AutoGazeError::FrameIndexOutsideClip { index, frames } => "frame index "@ + decimal(index as nat) + " is outside clip length "@ + decimal(frames as nat),
            AutoGazeError::ModelInputNotSquare { side, height, width } => "AutoGaze model input frames must be square "@ + decimal(side as nat) + "x"@ + decimal(side as nat) + ", got "@ + decimal(height as nat) + "x"@ + decimal(width as nat) + "; call prepare_video/embed_video or use a tiled inference mode for full-resolution input"@,
            AutoGazeError::FrameValues { expected, clip_len, channels, height, width, got } => "expected "@ + decimal(expected as nat) + " frame values for clip shape AutoGazeClipShape { clip_len: "@ + decimal(clip_len as nat) + ", channels: "@ + decimal(channels as nat) + ", height: "@ + decimal(height as nat) + ", width: "@ + decimal(width as nat) + " }, got "@ + decimal(got as nat),
        }
    }

    /// The message.
    pub fn message(&self) -> (r: String)
        ensures
            r@ == self.text(),
    {
        match self {
            AutoGazeError::EmptyTokenCount => "sparse readout token count must be nonzero".to_owned(),
            AutoGazeError::TokenCountNotSquare => "sparse readout token count must form a square grid".to_owned(),
            AutoGazeError::NoVideoFrames => "sparse video frame count must be nonzero".to_owned(),
            AutoGazeError::EmptyVideoDimensions => "sparse video dimensions must be nonzero".to_owned(),
            AutoGazeError::EmptyTubelet => "sparse video tubelet size must be nonzero".to_owned(),
            AutoGazeError::EmptyPatch => "sparse video patch dimensions must be nonzero".to_owned(),
            AutoGazeError::FramesNotDivisible => "video frames must be divisible by sparse video tubelet size".to_owned(),
            AutoGazeError::HeightNotDivisible => "video height must be divisible by sparse video patch height".to_owned(),
            AutoGazeError::WidthNotDivisible => "video width must be divisible by sparse video patch width".to_owned(),
            AutoGazeError::EmptyReadoutGrid => "sparse readout grid dimensions must be nonzero".to_owned(),
            AutoGazeError::BatchOutOfRange => "generated AutoGaze batch index out of range".to_owned(),
            AutoGazeError::FrameOutOfRange => "generated AutoGaze frame index out of range".to_owned(),
            AutoGazeError::EmptyImageGrid => "sparse image readout grid dimensions must be nonzero".to_owned(),
            AutoGazeError::EmptyVideoGrid => "sparse video readout grid dimensions must be nonzero".to_owned(),
            AutoGazeError::EmptyReadoutTubelet => "sparse video readout tubelet size must be nonzero".to_owned(),
            AutoGazeError::TokenOutsideGrid => "sparse video readout token index outside grid".to_owned(),
            AutoGazeError::BatchExceedsCoordinate => "sparse video readout batch index exceeds u32".to_owned(),
            AutoGazeError::TemporalBinExceedsCoordinate => "sparse video readout temporal bin exceeds u32".to_owned(),
            AutoGazeError::RowExceedsCoordinate => "sparse video readout row exceeds u32".to_owned(),
            AutoGazeError::ColumnExceedsCoordinate => "sparse video readout col exceeds u32".to_owned(),
            AutoGazeError::EmptyRgbaClip => "RGBA clip dimensions must be nonzero".to_owned(),
            AutoGazeError::RgbaClipDimensionsOverflow => "RGBA clip dimensions overflow".to_owned(),
            AutoGazeError::RgbaClipBytesOverflow => "RGBA clip byte length overflow".to_owned(),
            AutoGazeError::RgbaFrameBytesOverflow => "RGBA frame byte length overflow".to_owned(),
            AutoGazeError::ResizedFrameBytesOverflow => "resized RGBA frame byte length overflow".to_owned(),
            AutoGazeError::EmptyTensorClip => "AutoGaze tensor clip dimensions must be nonzero".to_owned(),
            AutoGazeError::QueueClipBytesOverflow => "AutoGaze clip byte length overflow".to_owned(),
            AutoGazeError::QueueFrameBytesOverflow => "AutoGaze frame byte length overflow".to_owned(),
            AutoGazeError::TracesDisabled => "AutoGaze traces are disabled for this packet; set AutoGazeTensorPipelineConfig::emit_traces to true".to_owned(),
            AutoGazeError::ReadoutDisabled => "AutoGaze readout is disabled for this packet; set AutoGazeTensorPipelineConfig::emit_traces, emit_readout_points, or emit_generated to true".to_owned(),
            AutoGazeError::GeneratedNeedsResize => "AutoGaze generated packets are only available in resize-to-model-input mode; enable emit_readout_points or emit_traces for tiled global readout".to_owned(),
            AutoGazeError::EmptyMaskBatch => "mask batch must be nonzero".to_owned(),
            AutoGazeError::EmptyMask => "mask dimensions must be nonzero".to_owned(),
            AutoGazeError::NoTraces => "at least one fixation trace is required".to_owned(),
            AutoGazeError::EmptyImageBatch => "image batch must be nonzero".to_owned(),
            AutoGazeError::EmptyImageChannels => "image channels must be nonzero".to_owned(),
            AutoGazeError::EmptyImage => "image dimensions must be nonzero".to_owned(),
            AutoGazeError::MaskBatchMismatch => "mask batch must be 1 or match image batch".to_owned(),
            AutoGazeError::EmptyMaskChannels => "mask channels must be nonzero".to_owned(),
            AutoGazeError::EmptyPyramid => "image pyramid must contain at least one level".to_owned(),
            AutoGazeError::EmptyPyramidTokens => "image pyramid tokens must be nonempty".to_owned(),
            AutoGazeError::EmptyPyramidChannels => "image pyramid token channels must be nonzero".to_owned(),
            AutoGazeError::PatchDiffBatch => "patch-diff video batch must be nonzero".to_owned(),
            AutoGazeError::PatchDiffTime => "patch-diff video clip length must be nonzero".to_owned(),
            AutoGazeError::PatchDiffChannels => "patch-diff video channels must be nonzero".to_owned(),
            AutoGazeError::PatchDiffSpace => "patch-diff video spatial dimensions must be nonzero".to_owned(),
            AutoGazeError::PatchDiffMask => "patch-diff mask dimensions must be nonzero".to_owned(),
            AutoGazeError::PatchDiffMaskBatch => "patch-diff device mask currently supports one visualization batch".to_owned(),
            AutoGazeError::PatchDiffGrid => "patch-diff score grid must match patch-diff config".to_owned(),
            AutoGazeError::PatchDiffScores => "patch-diff score tensor length must match batch and grid size".to_owned(),
            AutoGazeError::ClipBytes { expected, frames, width, height, got } => {
                let mut out: String = "expected ".to_owned();
                append_decimal(&mut out, *expected);
                out.append(" RGBA bytes for ");
                append_decimal(&mut out, *frames);
                out.append(" frame(s) at ");
                append_decimal(&mut out, *width);
                out.append("x");
                append_decimal(&mut out, *height);
                out.append(", got ");
                append_decimal(&mut out, *got);
                out
            },
            AutoGazeError::RgbaBytes { expected, got } => {
                let mut out: String = "expected ".to_owned();
                append_decimal(&mut out, *expected);
                out.append(" RGBA bytes, got ");
                append_decimal(&mut out, *got);
                out
            },
            AutoGazeError::QueueFrameBytes { expected, width, height, got } => {
                let mut out: String = "expected ".to_owned();
                append_decimal(&mut out, *expected);
                out.append(" RGBA bytes for ");
                append_decimal(&mut out, *width);
                out.append("x");
                append_decimal(&mut out, *height);
                out.append(", got ");
                append_decimal(&mut out, *got);
                out
            },
            AutoGazeError::FrameIndexOutOfBounds { index, frames } => {
                let mut out: String = "frame index ".to_owned();
                append_decimal(&mut out, *index);
                out.append(" is out of bounds for ");
                append_decimal(&mut out, *frames);
                out.append(" frame(s)");
                out
            },
            AutoGazeError::FrameIndexOutsideClip { index, frames } => {
                let mut out: String = "frame index ".to_owned();
                append_decimal(&mut out, *index);
                out.append(" is outside clip length ");
                append_decimal(&mut out, *frames);
                out
            },
            AutoGazeError::ModelInputNotSquare { side, height, width } => {
                let mut out: String = "AutoGaze model input frames must be square ".to_owned();
                append_decimal(&mut out, *side);
                out.append("x");
                append_decimal(&mut out, *side);
                out.append(", got ");
                append_decimal(&mut out, *height);
                out.append("x");
                append_decimal(&mut out, *width);
                out.append("; call prepare_video/embed_video or use a tiled inference mode for full-resolution input");
                out
            },
            AutoGazeError::FrameValues { expected, clip_len, channels, height, width, got } => {
                let mut out: String = "expected ".to_owned();
                append_decimal(&mut out, *expected);
                out.append(" frame values for clip shape AutoGazeClipShape { clip_len: ");
                append_decimal(&mut out, *clip_len);
                out.append(", channels: ");
                append_decimal(&mut out, *channels);
                out.append(", height: ");
                append_decimal(&mut out, *height);
                out.append(", width: ");
                append_decimal(&mut out, *width);
                out.append(" }, got ");
                append_decimal(&mut out, *got);
                out
            },
        }
    }
}

} // verus!
