use burn_autogaze::{
    video_readout_coords_to_tensor, AutoGazeConfig, AutoGazeGenerateOutput,
    AutoGazeInferenceMode, AutoGazePatchDiffConfig, AutoGazePipelinePacket, AutoGazeRgbaClip,
    AutoGazeRgbaClipShape, AutoGazeRgbaFrameClip, AutoGazeRgbaFrameQueue,
    AutoGazeSparseMaskSource, AutoGazeTensorClipShape, AutoGazeTensorPacketPlan,
    AutoGazeTensorPipelineConfig, Binary32, FixationPoint, FixationSet, FrameFixationTrace,
    PacketBuild, PacketStep, RgbaClipInput, RgbaFrame, SparseReadoutGrid, SparseReadoutOptions,
    SparseReadoutRect, SparseVideoReadoutGrid, SparseVideoReadoutOptions,
    SparseVideoReadoutProjection, DEFAULT_REALTIME_TOP_K, patch_diff_points_from_scores,
};

fn single(x: f32) -> Binary32 {
    Binary32::from_bits(x.to_bits())
}

fn singles(xs: &[f32]) -> Vec<Binary32> {
    xs.iter().map(|x| single(*x)).collect()
}

fn value(b: Binary32) -> f32 {
    f32::from_bits(b.to_bits())
}

fn rect(x0: f32, y0: f32, x1: f32, y1: f32) -> SparseReadoutRect {
    SparseReadoutRect::new(single(x0), single(y0), single(x1), single(y1))
}

fn extent(x: f32, y: f32, width: f32, height: f32, confidence: f32) -> FixationPoint {
    FixationPoint::with_extent(
        single(x),
        single(y),
        single(width),
        single(height),
        single(confidence),
    )
}

fn frame(width: u32, height: u32, rgba: &[u8]) -> RgbaFrame {
    RgbaFrame { width, height, rgba: rgba.to_vec() }
}

/// A model with one token in each frame.
fn one_token_config() -> AutoGazeConfig {
    let mut config = AutoGazeConfig {
        scales: vec![16],
        max_num_frames: 1,
        num_vision_tokens_each_frame: 1,
        ..AutoGazeConfig::default()
    };
    config.gaze_model_config.input_img_size = 16;
    config.gaze_model_config.num_vision_tokens_each_frame = 1;
    config.gaze_model_config.vision_model_config.kernel_size = 16;
    config.gaze_model_config.gaze_decoder_config.vocab_size = 2;
    config.gaze_model_config.gaze_decoder_config.eos_token_id = 1;
    config.gaze_model_config.gaze_decoder_config.num_multi_token_pred = 1;
    config
}

fn one_token_output() -> AutoGazeGenerateOutput {
    AutoGazeGenerateOutput {
        gazing_pos: vec![vec![0]],
        num_gazing_each_frame: vec![1],
        if_padded_gazing: vec![vec![false]],
        confidences: vec![singles(&[1.0])],
    }
}

fn build(config: AutoGazeTensorPipelineConfig, budget: usize) -> PacketBuild {
    PacketBuild::new(
        AutoGazeTensorPacketPlan::new(config, budget).expect("plan"),
        one_token_config(),
    )
}

fn square_clip() -> AutoGazeTensorClipShape {
    AutoGazeTensorClipShape::new(1, 1, 3, 16, 16)
}

#[test]
fn tensor_clip_shape_counts_and_checks() {
    let shape = AutoGazeTensorClipShape::new(1, 1, 1, 2, 3);
    assert_eq!(shape.num_values(), 6);
    assert!(shape.is_nonzero());
    assert!(shape.check().is_ok());
    assert!(shape.check_frame(0).is_ok());
    let err = shape.check_frame(1).unwrap_err();
    assert_eq!(err.message(), "frame index 1 is outside clip length 1");
    let err = AutoGazeTensorClipShape::new(1, 0, 3, 4, 4).check().unwrap_err();
    assert_eq!(err.message(), "AutoGaze tensor clip dimensions must be nonzero");
}

#[test]
fn rgba_clip_input_uses_core_inference_preprocessing_by_default() {
    let rgba = vec![10, 20, 30, 255, 40, 50, 60, 0];
    let shape = AutoGazeRgbaClipShape::new(1, 1, 2);
    let clip = AutoGazeRgbaClip::new(rgba, shape).expect("rgba clip");
    let mut input = RgbaClipInput::new().with_clip(clip);

    assert!(input.next_fits());
    let tensor_clip = input.next_clip().unwrap().expect("tensor clip");

    assert_eq!(
        (
            tensor_clip.shape.clip_len,
            tensor_clip.shape.channels,
            tensor_clip.shape.height,
            tensor_clip.shape.width,
        ),
        (1, 3, 224, 448)
    );
    assert_eq!(tensor_clip.values.len(), 3 * 224 * 448);
    assert!(input.is_empty());
    assert!(input.next_clip().unwrap().is_none());
}

#[test]
fn rgba_clip_input_can_preserve_tiled_source_tensor_shape() {
    let rgba = vec![10, 20, 30, 255, 40, 50, 60, 0];
    let shape = AutoGazeRgbaClipShape::new(1, 1, 2);
    let clip = AutoGazeRgbaClip::new(rgba, shape).expect("rgba clip");
    let mut input = RgbaClipInput::new()
        .with_inference_mode(AutoGazeInferenceMode::TiledResizeToGrid { tile_size: 224 })
        .with_clip(clip);

    assert_eq!(input.len(), 1);
    let tensor_clip = input.next_clip().unwrap().expect("tensor clip");

    assert_eq!(
        (
            tensor_clip.shape.clip_len,
            tensor_clip.shape.channels,
            tensor_clip.shape.height,
            tensor_clip.shape.width,
        ),
        (1, 3, 1, 2)
    );
}

#[test]
fn rgba_clips_check_their_bytes() {
    let shape = AutoGazeRgbaClipShape::new(1, 1, 2);
    let err = AutoGazeRgbaClip::new(vec![0; 7], shape).err().expect("short clip");
    assert_eq!(err.message(), "expected 8 RGBA bytes, got 7");
    let err = AutoGazeRgbaClip::new(vec![], AutoGazeRgbaClipShape::new(0, 1, 2))
        .err()
        .expect("empty clip");
    assert_eq!(err.message(), "RGBA clip dimensions must be nonzero");
    let err = AutoGazeRgbaClip::new(vec![], AutoGazeRgbaClipShape::new(usize::MAX, 2, 2))
        .err()
        .expect("huge clip");
    assert_eq!(err.message(), "RGBA clip byte length overflow");

    let clip = AutoGazeRgbaClip::new(vec![1, 2, 3, 4, 5, 6, 7, 8], shape).expect("clip");
    assert_eq!(clip.shape(), shape);
    assert_eq!(clip.rgba(), &[1, 2, 3, 4, 5, 6, 7, 8]);
    let tensor = clip.into_tensor_clip().expect("tensor");
    assert_eq!(tensor.values.len(), 6);
}

#[test]
fn tensor_pipeline_traces_are_opt_in() {
    let config = AutoGazeTensorPipelineConfig::default();
    assert_eq!(config.top_k, DEFAULT_REALTIME_TOP_K);

    let build = build(config, 1);
    assert_eq!(build.next_step(), PacketStep::Write);
    let packet = build.finish(square_clip());

    assert!(!packet.has_traces());
    assert!(!packet.has_generated());
    assert!(!packet.has_readout_points());
    assert!(packet.traces.is_empty());
    let err = packet.check_frame_mask().expect_err("mask requires traces");
    assert!(err.message().contains("emit_traces"), "unexpected error: {}", err.message());
    let err = packet
        .frame_readout_tokens(0, SparseReadoutGrid::new(1, 1), Default::default())
        .expect_err("readout requires points");
    assert!(err.message().contains("emit_readout_points"));
    assert!(packet.frame_readout_rects(0, Default::default()).is_err());
}

#[test]
fn tensor_pipeline_can_emit_generated_readout_without_traces() {
    let mut build = build(
        AutoGazeTensorPipelineConfig {
            top_k: 1,
            emit_generated: true,
            ..Default::default()
        },
        1,
    );
    assert_eq!(build.next_step(), PacketStep::Generate(1));
    build.put_generated(one_token_output());
    assert_eq!(build.next_step(), PacketStep::Write);
    let packet = build.finish(square_clip());

    assert!(!packet.has_traces());
    assert!(packet.has_generated());
    assert_eq!(
        packet
            .frame_readout_tokens(0, SparseReadoutGrid::new(1, 1), Default::default())
            .expect("generated readout"),
        vec![vec![0]]
    );
    let projection = SparseVideoReadoutProjection::new(
        SparseReadoutGrid::new(1, 1),
        SparseVideoReadoutGrid::new(1, 1, 1),
    )
    .with_video_options(SparseVideoReadoutOptions::default().with_exact_tokens(1));
    let coords = packet
        .video_readout_coords_with_projection(projection)
        .expect("projected video readout coords");
    assert_eq!(
        coords,
        packet
            .video_readout_coords(
                projection.image_grid,
                projection.video_grid,
                projection.readout_options,
                projection.video_options,
            )
            .expect("video readout coords")
    );
    assert_eq!(video_readout_coords_to_tensor(&coords).len(), coords.len() * 4);
    assert_eq!(
        packet
            .video_readout_tokens_with_projection(projection)
            .expect("projected tokens"),
        vec![vec![0]]
    );
}

#[test]
fn tensor_pipeline_can_emit_tiled_readout_points_without_traces() {
    let mut build = build(
        AutoGazeTensorPipelineConfig::default()
            .with_mode(AutoGazeInferenceMode::TiledResizeToGrid { tile_size: 16 })
            .with_top_k(1)
            .with_emit_readout_points(true),
        1,
    );
    assert_eq!(build.next_step(), PacketStep::Readout);
    build.put_points(vec![vec![vec![extent(0.5, 0.5, 1.0, 1.0, 1.0)]]]);
    assert_eq!(build.next_step(), PacketStep::Write);
    let packet = build.finish(square_clip());

    assert!(!packet.has_traces());
    assert!(!packet.has_generated());
    assert!(packet.has_readout_points());
    assert_eq!(
        packet
            .frame_readout_tokens(0, SparseReadoutGrid::new(1, 1), Default::default())
            .expect("tiled readout"),
        vec![vec![0]]
    );
    // A frame that the packet does not have reads as empty.
    assert_eq!(
        packet
            .frame_readout_tokens(7, SparseReadoutGrid::new(1, 1), Default::default())
            .expect("missing frame"),
        vec![Vec::<usize>::new()]
    );
}

#[test]
fn tensor_pipeline_can_emit_patch_diff_readout_points_without_model_decode() {
    let changes = AutoGazePatchDiffConfig::new(2, single(0.25));
    let mut build = build(
        AutoGazeTensorPipelineConfig::default()
            .with_sparse_mask_source(AutoGazeSparseMaskSource::patch_diff(2, single(0.25)))
            .with_emit_readout_points(true),
        1,
    );
    assert_eq!(build.next_step(), PacketStep::PatchDiff(changes));
    // The lower right quarter of a frame of 28x28 pixels turns from zero to one.
    let readout =
        patch_diff_points_from_scores(&singles(&[0.0, 0.0, 0.0, 1.0]), 1, 2, changes)
            .expect("changes");
    build.put_changes(readout);
    assert_eq!(build.next_step(), PacketStep::Write);
    let packet = build.finish(AutoGazeTensorClipShape::new(1, 2, 3, 28, 28));

    assert!(!packet.has_generated());
    assert!(packet.has_readout_points());
    let points = packet.readout_points.as_ref().expect("readout points");
    assert_eq!(points[0][1].len(), 1);
    assert!((value(points[0][1][0].x) - 0.75).abs() < 1.0e-6);
    assert!((value(points[0][1][0].y) - 0.75).abs() < 1.0e-6);
}

#[test]
fn changes_can_be_emitted_as_traces() {
    let changes = AutoGazePatchDiffConfig::new(2, single(0.25));
    let mut build = build(
        AutoGazeTensorPipelineConfig::default()
            .with_sparse_mask_source(AutoGazeSparseMaskSource::patch_diff(2, single(0.25)))
            .with_top_k(3)
            .with_emit_traces(true),
        1,
    );
    let readout =
        patch_diff_points_from_scores(&singles(&[0.0, 0.5, 0.0, 1.0]), 1, 2, changes)
            .expect("changes");
    build.put_changes(readout);
    let packet = build.finish(AutoGazeTensorClipShape::new(1, 2, 3, 28, 28));
    assert!(packet.has_traces());
    assert!(!packet.has_readout_points());
    assert_eq!(packet.traces[0].frames.len(), 2);
    assert_eq!(packet.traces[0].frames[1].points.len(), 3);
    assert_eq!(value(packet.traces[0].frames[1].points[0].x), 0.75);
    assert_eq!(value(packet.traces[0].frames[1].points[1].x), 0.75);
    assert_eq!(value(packet.traces[0].frames[1].points[1].y), 0.25);
}

#[test]
fn generated_tokens_give_traces_and_points() {
    let mut build = build(
        AutoGazeTensorPipelineConfig::default()
            .with_top_k(2)
            .with_emit_traces(true)
            .with_emit_readout_points(true),
        4,
    );
    assert_eq!(build.next_step(), PacketStep::Generate(4));
    build.put_generated(one_token_output());
    assert_eq!(build.next_step(), PacketStep::Write);
    let packet = build.finish(square_clip());
    assert!(packet.has_traces());
    assert!(!packet.has_generated());
    assert!(packet.has_readout_points());
    assert_eq!(packet.traces[0].frames[0].points.len(), 4);
    assert_eq!(packet.readout_points.as_ref().unwrap()[0][0].len(), 4);
}

#[test]
fn tiled_traces_are_traced_in_the_configured_mode() {
    let mut build = build(
        AutoGazeTensorPipelineConfig::default()
            .with_mode(AutoGazeInferenceMode::TiledResizeToGrid { tile_size: 16 })
            .with_emit_traces(true)
            .with_emit_readout_points(true),
        1,
    );
    assert_eq!(build.next_step(), PacketStep::Trace);
    let point = extent(0.5, 0.5, 1.0, 1.0, 1.0);
    build.put_traces(vec![FrameFixationTrace::new(vec![FixationSet::new(
        vec![point],
        single(0.0),
        1,
    )])]);
    assert_eq!(build.next_step(), PacketStep::Write);
    let packet = build.finish(square_clip());
    assert!(packet.has_traces());
    assert_eq!(packet.readout_points, Some(vec![vec![vec![point]]]));
}

#[test]
fn tensor_pipeline_rejects_generated_packets_for_tiled_modes() {
    let config = AutoGazeTensorPipelineConfig::default()
        .with_mode(AutoGazeInferenceMode::TiledResizeToGrid { tile_size: 16 })
        .with_top_k(1)
        .with_emit_traces(true)
        .with_emit_generated(true);

    let err = AutoGazeTensorPacketPlan::new(config, 1)
        .err()
        .expect("tiled generated packets should be rejected");
    assert!(
        err.message().contains("emit_readout_points"),
        "unexpected error: {}",
        err.message()
    );
}

#[test]
fn packet_reads_its_traces() {
    let point = extent(0.25, 0.5, 0.5, 1.0, 1.0);
    let packet = AutoGazePipelinePacket {
        clip: AutoGazeTensorClipShape::new(1, 2, 1, 1, 2),
        traces: vec![FrameFixationTrace::new(vec![
            FixationSet::new(vec![], single(0.0), 1),
            FixationSet::new(vec![point], single(1.0), 1),
        ])],
        generated: None,
        readout_points: None,
        model_config: AutoGazeConfig::default(),
        mode: AutoGazeInferenceMode::ResizeToModelInput,
        top_k: 1,
    };

    assert!(packet.check_frame_mask().is_ok());
    let readout = packet
        .frame_readout_tokens(1, SparseReadoutGrid::new(1, 2), Default::default())
        .expect("readout");
    let rects = packet
        .frame_readout_rects(1, Default::default())
        .expect("readout rects");
    let video_readout = packet
        .video_readout_tokens(
            SparseReadoutGrid::new(1, 2),
            SparseVideoReadoutGrid::new(1, 1, 2),
            Default::default(),
            SparseVideoReadoutOptions::default()
                .with_tubelet_size(2)
                .with_exact_tokens(1),
        )
        .expect("video readout");
    let video_coords = packet
        .video_readout_coords(
            SparseReadoutGrid::new(1, 2),
            SparseVideoReadoutGrid::new(1, 1, 2),
            Default::default(),
            SparseVideoReadoutOptions::default()
                .with_tubelet_size(2)
                .with_exact_tokens(1),
        )
        .expect("video readout coords");

    assert_eq!(readout, vec![vec![0]]);
    assert_eq!(rects, vec![vec![rect(0.0, 0.0, 0.5, 1.0)]]);
    assert_eq!(video_readout, vec![vec![0]]);
    assert_eq!(video_coords, vec![[0, 0, 0, 0]]);
    assert_eq!(video_readout_coords_to_tensor(&video_coords), vec![0, 0, 0, 0]);
}

#[test]
fn packet_readout_can_decode_generated_output_without_traces() {
    let mut model_config = AutoGazeConfig {
        scales: vec![32, 64],
        num_vision_tokens_each_frame: 20,
        ..AutoGazeConfig::default()
    };
    model_config.gaze_model_config.num_vision_tokens_each_frame = 20;
    model_config.gaze_model_config.vision_model_config.kernel_size = 16;
    let packet = AutoGazePipelinePacket {
        clip: AutoGazeTensorClipShape::new(1, 2, 3, 16, 16),
        traces: Vec::new(),
        generated: Some(AutoGazeGenerateOutput {
            gazing_pos: vec![vec![0, 4, 39]],
            num_gazing_each_frame: vec![2, 1],
            if_padded_gazing: vec![vec![false, false, false]],
            confidences: vec![singles(&[1.0, 0.8, 0.9])],
        }),
        readout_points: None,
        model_config,
        mode: AutoGazeInferenceMode::ResizeToModelInput,
        top_k: 2,
    };

    assert!(!packet.has_traces());
    assert!(packet.has_generated());
    let tokens = packet
        .frame_readout_tokens(1, SparseReadoutGrid::new(4, 4), Default::default())
        .expect("tokens");
    let rects = packet
        .frame_readout_rects(1, Default::default())
        .expect("rects");
    let video_tokens = packet
        .video_readout_tokens(
            SparseReadoutGrid::new(4, 4),
            SparseVideoReadoutGrid::new(1, 4, 4),
            SparseReadoutOptions::default().with_max_tokens_per_frame(4),
            SparseVideoReadoutOptions::default()
                .with_tubelet_size(2)
                .with_exact_tokens(4),
        )
        .expect("video tokens");
    let video_coords = packet
        .video_readout_coords(
            SparseReadoutGrid::new(4, 4),
            SparseVideoReadoutGrid::new(1, 4, 4),
            SparseReadoutOptions::default().with_max_tokens_per_frame(4),
            SparseVideoReadoutOptions::default()
                .with_tubelet_size(2)
                .with_exact_tokens(4),
        )
        .expect("video coords");

    assert_eq!(tokens, vec![vec![15]]);
    assert_eq!(rects, vec![vec![rect(0.75, 0.75, 1.0, 1.0)]]);
    assert_eq!(video_tokens, vec![vec![0, 1, 4, 5]]);
    assert_eq!(
        video_coords,
        vec![[0, 0, 0, 0], [0, 0, 0, 1], [0, 0, 1, 0], [0, 0, 1, 1]]
    );
    assert_eq!(
        video_readout_coords_to_tensor(&video_coords),
        vec![0, 0, 0, 0, 0, 0, 0, 1, 0, 0, 1, 0, 0, 0, 1, 1]
    );
}

#[test]
fn rgba_frame_queue_packs_latest_and_fixed_length_clips() {
    let frame_a = [1, 2, 3, 255, 4, 5, 6, 255];
    let frame_b = [7, 8, 9, 255, 10, 11, 12, 255];
    let mut queue = AutoGazeRgbaFrameQueue::new(1);

    queue.push(frame(2, 1, &frame_a), 2);
    assert!(queue.build_clip(2).expect("not enough frames").is_none());
    queue.push(frame(2, 1, &frame_b), 2);

    let clip = queue
        .build_clip(2)
        .expect("build clip")
        .expect("complete clip");
    assert_eq!(clip.width(), 2);
    assert_eq!(clip.height(), 1);
    assert_eq!(clip.clip_len(), 2);
    assert_eq!(
        clip.rgba(),
        &[1, 2, 3, 255, 4, 5, 6, 255, 7, 8, 9, 255, 10, 11, 12, 255]
    );
    assert_eq!(clip.last_frame_rgba().expect("last frame"), &frame_b);
    assert!(clip.rgba_capacity() >= 16);
    queue.recycle_clip_buffer(clip.into_rgba());
    assert_eq!(queue.spare_clip_buffer_count(), 1);

    let latest = queue
        .build_latest_clip()
        .expect("build latest")
        .expect("latest clip");
    assert_eq!(latest.clip_len(), 1);
    assert_eq!(latest.rgba(), &frame_b);
    assert_eq!(queue.spare_clip_buffer_count(), 0);
}

#[test]
fn rgba_frame_queue_holds_the_newest_frames_of_one_size() {
    let mut queue = AutoGazeRgbaFrameQueue::new(1);
    assert!(queue.latest().is_none());
    assert!(queue.build_latest_clip().expect("empty").is_none());
    for k in 0..5u8 {
        queue.push(frame(1, 1, &[k, k, k, 255]), 3);
    }
    let clip = queue.build_clip(3).expect("build").expect("clip");
    assert_eq!(clip.rgba(), &[2, 2, 2, 255, 3, 3, 3, 255, 4, 4, 4, 255]);
    queue.recycle_clip_buffer(clip.into_rgba());
    queue.recycle_clip_buffer(Vec::with_capacity(64));
    assert_eq!(queue.spare_clip_buffer_count(), 1);

    // A frame of another size starts over.
    queue.push(frame(2, 1, &[9; 8]), 3);
    assert_eq!(queue.spare_clip_buffer_count(), 0);
    assert_eq!(queue.latest().expect("latest").width, 2);
    assert!(queue.build_clip(3).expect("one frame").is_none());
    assert_eq!(
        queue.build_latest_clip().expect("latest").expect("clip").rgba(),
        &[9; 8]
    );
    queue.reset();
    assert!(queue.latest().is_none());
}

#[test]
fn rgba_frame_queue_reports_frames_with_missing_bytes() {
    let mut queue = AutoGazeRgbaFrameQueue::new(0);
    queue.push(frame(2, 1, &[1, 2, 3]), 1);
    let err = queue.build_latest_clip().err().expect("short frame");
    assert_eq!(err.message(), "expected 8 RGBA bytes for 2x1, got 3");
    queue.recycle_clip_buffer(Vec::new());
    assert_eq!(queue.spare_clip_buffer_count(), 0);
}

#[test]
fn frame_clips_give_their_parts() {
    let clip = AutoGazeRgbaFrameClip::new(vec![1, 2, 3, 4, 5, 6, 7, 8], 1, 1, 2).expect("clip");
    assert_eq!(clip.shape(), AutoGazeRgbaClipShape::new(2, 1, 1));
    assert_eq!(clip.last_frame_rgba().expect("last"), &[5, 6, 7, 8]);
    let (rgba, width, height, clip_len) = clip.into_parts();
    assert_eq!((width, height, clip_len), (1, 1, 2));
    let clip = AutoGazeRgbaFrameClip::new(rgba, 1, 1, 2).expect("clip");
    let clip = clip.into_rgba_clip().expect("rgba clip");
    assert_eq!(clip.into_rgba(), vec![1, 2, 3, 4, 5, 6, 7, 8]);
    assert!(AutoGazeRgbaFrameClip::new(vec![0; 4], 1, 1, 2).is_err());
}
