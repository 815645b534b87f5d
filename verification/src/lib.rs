//! Sparse gaze decoding for video.
//!
//! A gaze model looks at a clip and names, frame by frame, the cells of a few grids that matter.
//! This library holds what surrounds the model: how clips become model input, how tokens are
//! selected and stopped, how sequences and caches grow and roll, how tokens become fixations, how
//! fixations of tiles are stitched onto a frame, and how fixations select the tokens of image and
//! video grids. Every function states what it computes, and the proofs are checked with it.
//!
//! Numbers with a fraction are held as the bits of the binary formats of IEEE 754, and their
//! arithmetic is exact to the bit.

pub mod agreement;
pub mod arith;
pub mod budget;
pub mod cache;
pub mod clip;
pub mod config;
pub mod coverage;
pub mod covering;
pub mod decode;
pub mod decoded;
pub mod decoder_agreement;
pub mod device;
pub mod device_agreement;
pub mod device_select;
pub mod error;
pub mod format;
pub mod frames;
pub mod gathering;
pub mod generated;
pub mod generation;
pub mod ieee;
pub mod layout;
pub mod metrics;
pub mod nearness;
pub mod options;
pub mod order;
pub mod pace;
pub mod packet;
pub mod patch_diff;
pub mod placement;
pub mod plan;
pub mod positions;
pub mod projection;
pub mod pyramid;
pub mod readout;
pub mod regions;
pub mod root;
pub mod rope;
pub mod rounding;
pub mod run_agreement;
pub mod runtime;
pub mod selection;
pub mod shares;
pub mod sizes;
pub mod stitch;
pub mod streaming;
pub mod text;
pub mod tiled;
pub mod tiles;
pub mod trace;

pub use cache::{
    CacheStep, ChannelPlan, Compaction, adapt_video_channels, cache_step, cached_sequence_len,
    causal_attention_bias_for_query, conv_tail, generates_cached, key_repeats, plan_compaction,
    truncated_len,
};
pub use clip::{
    AUTO_GAZE_PROCESSOR_SHORT_EDGE, AutoGazeClipShape, AutoGazeClipTensor, AutoGazePreparedRun,
    AutoGazeRgbaClipShape, BLUE_MEAN_BITS, BLUE_STD_BITS, GREEN_MEAN_BITS, GREEN_STD_BITS,
    MAX_REDUCED_SIDE, MAX_RESIZE_SIDE, MAX_SMALL_SIDE, RED_MEAN_BITS, RED_STD_BITS,
    RESCALE_FACTOR_BITS, autogaze_processor_value,
    check_frame_index, last_rgba_frame, prepare_rgba_clip_for_trace,
    processor_resize_dimensions, resize_dimensions_preserving_aspect,
    resize_rgba_frame_to_dimensions, rgba_clip_to_inference_tensor,
    rgba_clip_to_processor_tensor, rgba_clip_to_tensor,
};
pub use config::{AutoGazeConfig, GazeDecoderConfig, GazeModelConfig, VisionModelConfig};
pub use coverage::{
    CoverageModel, GenerationCoverageTracker, MAX_COVERAGE_GRID,
    coverage_grid_for_layouts, effective_generation_max_tokens, generation_coverage_trackers,
    normalize_scale_layouts, observe_generation_coverage,
};
pub use decode::{FrameDecode, RowModel};
pub use decoded::{
    generated_frame_readout_rects, generated_frame_readout_tokens,
    generated_to_frame_readout_rects, generated_to_frame_readout_tokens,
    generated_to_video_readout_coords, generated_to_video_readout_tokens,
    trace_frame_readout_rects, trace_frame_readout_tokens, trace_to_frame_readout_rects,
    trace_to_frame_readout_tokens, trace_to_video_readout_coords, trace_to_video_readout_tokens,
};
pub use device::{AutoGazeDecodeStrategy, ChunkOutcome, requested_steps};
pub use device_select::{
    DeviceGreedySelection, DeviceGreedySelectionConfig, DeviceGreedySelectionState, DeviceRow,
    HIDDEN_SCORE_BITS, LEAST_SCORE_BITS, device_finished_after_selection_block,
    device_select_multi_tokens, pack_device_greedy_chunk,
};
pub use error::AutoGazeError;
pub use frames::{
    AutoGazeRgbaClip, AutoGazeRgbaFrameClip, AutoGazeRgbaFrameQueue, AutoGazeTensorClipShape,
    RgbaClipInput, RgbaFrame, rgba_frame_byte_len,
};
pub use generation::{GenerationMode, GenerationRun, GenerationSettings, GenerationStep};
pub use generated::{
    AutoGazeGenerateOutput, AutoGazeScaleTokenMask, GeneratedFrameFixations,
    generated_frame_fixations, generated_scale_token_masks, generated_to_frame_fixations,
    generated_to_frame_points, generated_to_traces,
};
pub use ieee::{Binary32, Binary64};
pub use layout::{
    AutoGazeScaleTokenLayout, scale_token_index, scale_token_layouts, square_grid,
    token_to_fixation_point,
};
pub use metrics::{
    AutoGazeEmaMetric, AutoGazeGazeRatioStats, AutoGazePsnrStats, DEFAULT_METRIC_EMA_ALPHA_BITS,
    HUNDRED_BITS, INFINITY_BITS, ONE_DOUBLE_BITS, THOUSAND_BITS, ZERO_DOUBLE_BITS, double,
    ema_metric, format_gaze_ratio_percent, format_psnr_db, fps_from_millis, sanitize_gaze_ratio,
};
pub use options::{
    AutoGazeLoadOptions, AutoGazePipelineOptions, AutoGazePipelineSettings,
    AutoGazeTaskLossOption, check_model_input, default_max_gaze_tokens_each_frame,
};
pub use packet::{AutoGazePipelinePacket, PacketSource};
pub use patch_diff::{
    AutoGazePatchDiffConfig, AutoGazeReadoutStats, AutoGazeSparseMaskSource,
    DEFAULT_PATCH_DIFF_GRID_SIZE, DEFAULT_PATCH_DIFF_THRESHOLD_BITS, PatchDiffMaskPlan,
    PatchDiffMaskSummary, PatchDiffPlan, PatchDiffReadout, ScoredCell, check_patch_diff_mask,
    check_patch_diff_scores,
    patch_diff_point, patch_diff_points_from_scores, patch_diff_points_to_traces,
    patch_diff_readout_stats, plan_patch_diff, plan_patch_diff_mask, scalar_count_to_usize,
    summarize_patch_diff_mask,
};
pub use plan::{
    AutoGazeTensorPacketPlan, AutoGazeTensorPipelineConfig, PacketBuild, PacketStep,
    traces_to_readout_points,
};
pub use positions::{
    PositionIds, append_generated_position_slots, attention_mask_rows_are_all_valid,
    attention_mask_tensor, attention_mask_tensor_or_none, commit_pending_position_ids,
    commit_pending_position_ids_with_offsets, contiguous_position_start,
    generation_tail_positions, identical_position_slice, next_valid_position_with_offset,
    position_ids_slice_tensor, position_ids_slice_tensor_optimized, truncate_generation_rows,
};
pub use projection::{
    batched_video_readout_tokens_to_coords, fixation_points_to_readout_rects,
    fixation_points_to_readout_tokens, frame_readout_rects_to_video_coords,
    frame_readout_rects_to_video_tokens, frame_readout_tokens_to_video_coords,
    frame_readout_tokens_to_video_tokens, readout_rects_to_tokens, rect_grid_bounds,
    video_readout_coords_to_tensor, video_readout_tokens_to_coords,
};
pub use pyramid::{
    ImagePyramidLevel, ImagePyramidPlan, MaskPlan, check_fixation_mask, check_pyramid_mask,
    check_trace_masks, ensure_image_shape, plan_mask, plan_pyramid, sparse_token_count,
};
pub use readout::{
    EPSILON_BITS, GRID_BOUNDARY_EPSILON_BITS, SparseReadoutGrid, SparseReadoutOptions,
    SparseReadoutRect, SparseVideoPatchGeometry, SparseVideoReadoutGrid,
    SparseVideoReadoutOptions, SparseVideoReadoutProjection,
};
pub use rope::{llama3_inv_freq, rope_exponents, RopeScaling};
pub use runtime::{
    AutoGazeInferenceSequencer, AutoGazeRealtimePolicy, DEFAULT_BLEND_ALPHA_BITS,
    DEFAULT_KEYFRAME_DURATION, DEFAULT_MAX_IN_FLIGHT, DEFAULT_MODEL_GENERATION_BUDGET,
    DEFAULT_REALTIME_FRAMES_PER_CLIP, DEFAULT_REALTIME_TOP_K, DEFAULT_TILED_FRAMES_PER_CLIP,
    DEFAULT_TILED_MAX_GAZE_TOKENS, DEFAULT_TILED_TILE_BATCH_SIZE, DEFAULT_TILED_TOP_K,
    default_blend_alpha, should_use_streaming_cache,
};
pub use selection::{
    GreedySelectionContext, GreedyTokenSelection, RowRules, RowScores, RowSelection,
    TaskLossStop, device_greedy_chunk_from_packed_data, disallowed_token_mask,
    greedy_select_multi_tokens, greedy_select_multi_tokens_from_data,
    greedy_select_multi_tokens_from_packed_data,
};
pub use stitch::{
    build_tiled_traces, collect_tile_trace_points, empty_batch_frame_points, local_cell_index,
    point_scale_grid, recovered_scale_grid, remap_non_overlapping_tile_point, remap_tile_point,
    sort_batch_frame_points_by_confidence, sort_points_by_confidence, tiled_frame_budget,
    traces_to_frame_points,
};
pub use streaming::{AutoGazeStreamingCache, AutoGazeStreamingCacheState, SequenceRow, StepInputs};
pub use tiled::TiledRun;
pub use tiles::{
    AutoGazeInferenceMode, AutoGazeTile, AutoGazeTileLayout, InferencePlan, TileCrop,
    dense_grid_layout, per_tile_trace_k, plan_inference, tile_batch_range, tile_chunks, tile_crop,
    tile_origins,
};
pub use trace::{
    FixationBounds, FixationPoint, FixationSet, FrameFixationTrace, HALF_BITS,
    MIN_CELL_EXTENT_BITS, ONE_BITS, QUARTER_BITS, ZERO_BITS, single,
};
