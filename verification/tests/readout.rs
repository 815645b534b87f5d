use burn_autogaze::{
    batched_video_readout_tokens_to_coords, fixation_points_to_readout_tokens,
    frame_readout_rects_to_video_coords, frame_readout_rects_to_video_tokens,
    frame_readout_tokens_to_video_coords, frame_readout_tokens_to_video_tokens,
    generated_frame_readout_tokens, generated_to_frame_readout_rects,
    generated_to_frame_readout_tokens, generated_to_video_readout_coords,
    generated_to_video_readout_tokens, readout_rects_to_tokens, trace_to_frame_readout_rects,
    trace_to_frame_readout_tokens, trace_to_video_readout_coords, trace_to_video_readout_tokens,
    video_readout_coords_to_tensor, video_readout_tokens_to_coords, AutoGazeConfig,
    AutoGazeGenerateOutput, Binary32, FixationPoint, FixationSet, FrameFixationTrace,
    SparseReadoutGrid, SparseReadoutOptions, SparseReadoutRect, SparseVideoPatchGeometry,
    SparseVideoReadoutGrid, SparseVideoReadoutOptions, SparseVideoReadoutProjection,
};

fn single(x: f32) -> Binary32 {
    Binary32::from_bits(x.to_bits())
}

fn singles(xs: &[f32]) -> Vec<Binary32> {
    xs.iter().map(|x| single(*x)).collect()
}

fn value(b: Binary32) -> f32 {
    f32::from_bits(b.to_bits())
}

fn rect(x0: f32, y0: f32, x1: f32, y1: f32) -> SparseReadoutRect {
    SparseReadoutRect::new(single(x0), single(y0), single(x1), single(y1))
}

fn cell(x: f32, y: f32, width: f32, height: f32, confidence: f32, grid: usize) -> FixationPoint {
    FixationPoint::with_grid_extent(
        single(x),
        single(y),
        single(width),
        single(height),
        single(confidence),
        grid,
    )
}

#[test]
fn grid_token_rects_are_normalized() {
    let grid = SparseReadoutGrid::new(2, 4);
    assert_eq!(grid.token_index(1, 2), Some(6));
    assert_eq!(
        grid.token_rect(6),
        Some(rect(0.5, 0.5, 0.75, 1.0))
    );
    assert_eq!(grid.token_rect(8), None);
}

#[test]
fn square_grid_can_be_built_from_token_count() {
    assert_eq!(
        SparseReadoutGrid::square_from_token_count(196).unwrap(),
        SparseReadoutGrid::new(14, 14)
    );
    let err = SparseReadoutGrid::square_from_token_count(198).unwrap_err();
    assert!(err.message().contains("square grid"));
}

#[test]
fn video_grid_indices_are_temporal_row_major() {
    let grid = SparseVideoReadoutGrid::new(2, 3, 4);
    assert_eq!(grid.tokens_per_temporal_bin(), 12);
    assert_eq!(grid.token_index(1, 2, 3), Some(23));
    assert_eq!(grid.token_index(2, 0, 0), None);
    assert_eq!(grid.token_coords(0), Some((0, 0, 0)));
    assert_eq!(grid.token_coords(7), Some((0, 1, 3)));
    assert_eq!(grid.token_coords(23), Some((1, 2, 3)));
    assert_eq!(grid.token_coords(24), None);
}

#[test]
fn patch_geometry_derives_sparse_patchifier_grid() {
    let geometry = SparseVideoPatchGeometry::square_patch(4, 64, 96, 2, 16);
    let grid = geometry.readout_grid().unwrap();
    let projection = SparseVideoReadoutProjection::from_patch_geometry(
        SparseReadoutGrid::new(2, 2),
        geometry,
    )
    .unwrap()
    .with_video_options(
        SparseVideoReadoutOptions::default()
            .with_tubelet_size(2)
            .with_exact_tokens(4),
    );

    assert_eq!(grid, SparseVideoReadoutGrid::new(2, 4, 6));
    assert_eq!(projection.video_grid, grid);

    let frame_tokens = vec![vec![], vec![1], vec![2], vec![]];
    let tokens = frame_readout_tokens_to_video_tokens(
        &frame_tokens,
        projection.image_grid,
        projection.video_grid,
        projection.video_options,
    )
    .unwrap();
    let coords = video_readout_tokens_to_coords(&tokens, projection.video_grid, 0).unwrap();

    assert_eq!(tokens, vec![3, 4, 5, 9]);
    assert_eq!(
        coords,
        vec![[0, 0, 0, 3], [0, 0, 0, 4], [0, 0, 0, 5], [0, 0, 1, 3]]
    );
}

#[test]
fn patch_geometry_rejects_non_patch_aligned_video_shapes() {
    let err = SparseVideoPatchGeometry::square_patch(5, 64, 96, 2, 16)
        .readout_grid()
        .unwrap_err();
    assert!(err.message().contains("frames"));

    let err = SparseVideoPatchGeometry::square_patch(4, 63, 96, 2, 16)
        .readout_grid()
        .unwrap_err();
    assert!(err.message().contains("height"));

    let err = SparseVideoPatchGeometry::new(4, 64, 95, 2, 16, 16)
        .readout_grid()
        .unwrap_err();
    assert!(err.message().contains("width"));
}

#[test]
fn multiscale_fixation_expands_to_intersecting_readout_tokens() {
    let grid = SparseReadoutGrid::new(4, 4);
    let points = [cell(
        0.25, 0.25, 0.5, 0.5, 1.0, 2,
    )];
    let tokens =
        fixation_points_to_readout_tokens(&points, grid, SparseReadoutOptions::default())
            .unwrap();
    assert_eq!(tokens, vec![0, 1, 4, 5]);
}

#[test]
fn fine_fixation_maps_to_single_readout_token() {
    let grid = SparseReadoutGrid::new(4, 4);
    let points = [cell(
        0.875, 0.875, 0.25, 0.25, 1.0, 4,
    )];
    let tokens =
        fixation_points_to_readout_tokens(&points, grid, SparseReadoutOptions::default())
            .unwrap();
    assert_eq!(tokens, vec![15]);
}

#[test]
fn confidence_threshold_filters_padding_points() {
    let grid = SparseReadoutGrid::new(4, 4);
    let points = [
        cell(0.25, 0.25, 0.5, 0.5, 0.0, 2),
        cell(0.875, 0.875, 0.25, 0.25, 0.8, 4),
    ];
    let tokens = fixation_points_to_readout_tokens(
        &points,
        grid,
        SparseReadoutOptions::default().with_confidence_threshold(single(0.1)),
    )
    .unwrap();
    assert_eq!(tokens, vec![15]);
}

#[test]
fn max_fixations_caps_decoded_gaze_points_before_projection() {
    let grid = SparseReadoutGrid::new(4, 4);
    let points = [
        cell(0.25, 0.25, 0.5, 0.5, 1.0, 2),
        cell(0.875, 0.875, 0.25, 0.25, 1.0, 4),
    ];

    let tokens = fixation_points_to_readout_tokens(
        &points,
        grid,
        SparseReadoutOptions::default().with_max_fixations_per_frame(1),
    )
    .unwrap();
    let zero_tokens = fixation_points_to_readout_tokens(
        &points,
        grid,
        SparseReadoutOptions::default().with_max_fixations_per_frame(0),
    )
    .unwrap();

    assert_eq!(tokens, vec![0, 1, 4, 5]);
    assert!(zero_tokens.is_empty());
}

#[test]
fn dilation_and_max_tokens_are_applied_after_deduplication() {
    let grid = SparseReadoutGrid::new(4, 4);
    let rects = [rect(0.5, 0.5, 0.75, 0.75)];
    let tokens = readout_rects_to_tokens(
        &rects,
        grid,
        SparseReadoutOptions::default()
            .with_dilation(1)
            .with_max_tokens_per_frame(5),
    )
    .unwrap();
    assert_eq!(tokens, vec![5, 6, 7, 9, 10]);
}

#[test]
fn a_dilation_of_any_size_is_cut_to_the_grid() {
    let grid = SparseReadoutGrid::new(4, 4);
    let select = |dilation: usize| {
        readout_rects_to_tokens(
            &[rect(0.5, 0.5, 0.75, 0.75)],
            grid,
            SparseReadoutOptions::default().with_dilation(dilation),
        )
        .unwrap()
    };
    assert_eq!(select(0), vec![10]);
    assert_eq!(select(1), vec![5, 6, 7, 9, 10, 11, 13, 14, 15]);
    let whole: Vec<usize> = (0..16).collect();
    for dilation in [2, 3, usize::MAX / 2, usize::MAX / 2 + 1, usize::MAX] {
        assert_eq!(select(dilation), whole);
    }
}

#[test]
fn zero_max_tokens_returns_empty_readout() {
    let grid = SparseReadoutGrid::new(4, 4);
    let rects = [rect(0.0, 0.0, 1.0, 1.0)];
    let tokens = readout_rects_to_tokens(
        &rects,
        grid,
        SparseReadoutOptions::default().with_max_tokens_per_frame(0),
    )
    .unwrap();
    assert!(tokens.is_empty());
}

#[test]
fn trace_projection_preserves_frame_boundaries() {
    let trace = FrameFixationTrace::new(vec![
        FixationSet::new(
            vec![cell(
                0.25, 0.25, 0.5, 0.5, 1.0, 2,
            )],
            single(0.0),
            1,
        ),
        FixationSet::new(
            vec![cell(
                0.875, 0.875, 0.25, 0.25, 1.0, 4,
            )],
            single(0.0),
            1,
        ),
    ]);
    let tokens = trace_to_frame_readout_tokens(
        &trace,
        SparseReadoutGrid::new(4, 4),
        SparseReadoutOptions::default(),
    )
    .unwrap();
    let rects = trace_to_frame_readout_rects(&trace, SparseReadoutOptions::default());
    assert_eq!(tokens, vec![vec![0, 1, 4, 5], vec![15]]);
    assert_eq!(rects.len(), 2);
    assert_eq!(rects[0], vec![rect(0.0, 0.0, 0.5, 0.5)]);
    assert_eq!(rects[1], vec![rect(0.75, 0.75, 1.0, 1.0)]);
}

#[test]
fn generated_projection_matches_trace_multiscale_decoding_without_trace_allocation() {
    let mut config = AutoGazeConfig {
        scales: vec![32, 64],
        num_vision_tokens_each_frame: 20,
        ..AutoGazeConfig::default()
    };
    config.gaze_model_config.num_vision_tokens_each_frame = 20;
    config.gaze_model_config.vision_model_config.kernel_size = 16;
    let generated = AutoGazeGenerateOutput {
        gazing_pos: vec![vec![0, 4, 39]],
        num_gazing_each_frame: vec![2, 1],
        if_padded_gazing: vec![vec![false, false, false]],
        confidences: vec![singles(&[1.0, 0.8, 0.9])],
    };
    let grid = SparseReadoutGrid::new(4, 4);
    let options = SparseReadoutOptions::default();

    let tokens =
        generated_to_frame_readout_tokens(&generated, &config, 0, grid, options).unwrap();
    let rects = generated_to_frame_readout_rects(&generated, &config, 0, options).unwrap();

    assert_eq!(tokens, vec![vec![0, 1, 4, 5], vec![15]]);
    assert_eq!(
        rects,
        vec![
            vec![
                rect(0.0, 0.0, 0.5, 0.5),
                rect(0.0, 0.0, 0.25, 0.25),
            ],
            vec![rect(0.75, 0.75, 1.0, 1.0)],
        ]
    );
}

#[test]
fn generated_projection_reports_invalid_batch_or_frame() {
    let config = AutoGazeConfig::default();
    let generated = AutoGazeGenerateOutput {
        gazing_pos: vec![vec![0]],
        num_gazing_each_frame: vec![1],
        if_padded_gazing: vec![vec![false]],
        confidences: vec![singles(&[1.0])],
    };
    let grid = SparseReadoutGrid::new(1, 1);
    let options = SparseReadoutOptions::default();

    let err =
        generated_to_frame_readout_tokens(&generated, &config, 1, grid, options).unwrap_err();
    assert!(err.message().contains("batch index"));
    let err =
        generated_frame_readout_tokens(&generated, &config, 0, 1, grid, options).unwrap_err();
    assert!(err.message().contains("frame index"));
}

#[test]
fn frame_readout_tokens_project_to_video_tubelet_tokens() {
    let image_grid = SparseReadoutGrid::new(2, 2);
    let video_grid = SparseVideoReadoutGrid::new(2, 4, 4);
    let frame_tokens = vec![vec![], vec![1], vec![2], vec![]];
    let tokens = frame_readout_tokens_to_video_tokens(
        &frame_tokens,
        image_grid,
        video_grid,
        SparseVideoReadoutOptions::default()
            .with_tubelet_size(2)
            .with_exact_tokens(4),
    )
    .unwrap();
    let coords = frame_readout_tokens_to_video_coords(
        &frame_tokens,
        image_grid,
        video_grid,
        SparseVideoReadoutOptions::default()
            .with_tubelet_size(2)
            .with_exact_tokens(4),
        3,
    )
    .unwrap();
    let coord_tensor = video_readout_coords_to_tensor(&coords);

    assert_eq!(tokens, vec![2, 3, 6, 7]);
    assert_eq!(
        coords,
        vec![[3, 0, 0, 2], [3, 0, 0, 3], [3, 0, 1, 2], [3, 0, 1, 3]]
    );
    assert_eq!(
        coord_tensor,
        vec![3, 0, 0, 2, 3, 0, 0, 3, 3, 0, 1, 2, 3, 0, 1, 3]
    );
}

#[test]
fn frame_readout_tokens_fill_to_minimum_video_tokens() {
    let image_grid = SparseReadoutGrid::new(2, 2);
    let video_grid = SparseVideoReadoutGrid::new(1, 4, 4);
    let frame_tokens = vec![vec![0]];
    let tokens = frame_readout_tokens_to_video_tokens(
        &frame_tokens,
        image_grid,
        video_grid,
        SparseVideoReadoutOptions::default()
            .with_tubelet_size(1)
            .with_exact_tokens(6),
    )
    .unwrap();

    assert_eq!(tokens.len(), 6);
    for token in [0, 1, 4, 5] {
        assert!(tokens.contains(&token));
    }
}

#[test]
fn frame_readout_tokens_allow_partial_video_window() {
    let image_grid = SparseReadoutGrid::new(1, 1);
    let video_grid = SparseVideoReadoutGrid::new(3, 2, 2);
    let frame_tokens = vec![vec![0]];
    let tokens = frame_readout_tokens_to_video_tokens(
        &frame_tokens,
        image_grid,
        video_grid,
        SparseVideoReadoutOptions::default()
            .with_tubelet_size(2)
            .with_exact_tokens(5),
    )
    .unwrap();

    assert_eq!(tokens.len(), 5);
    for token in [0, 1, 2, 3] {
        assert!(tokens.contains(&token));
    }
}

#[test]
fn frame_readout_rects_project_to_video_tubelet_tokens() {
    let video_grid = SparseVideoReadoutGrid::new(2, 4, 4);
    let mut frame_rects = vec![Vec::new(); 4];
    frame_rects[1].push(rect(0.5, 0.0, 0.75, 0.25));
    let tokens = frame_readout_rects_to_video_tokens(
        &frame_rects,
        video_grid,
        SparseVideoReadoutOptions::default()
            .with_tubelet_size(2)
            .with_min_tokens(1),
    )
    .unwrap();
    let coords = frame_readout_rects_to_video_coords(
        &frame_rects,
        video_grid,
        SparseVideoReadoutOptions::default()
            .with_tubelet_size(2)
            .with_min_tokens(1),
        1,
    )
    .unwrap();
    let coord_tensor = video_readout_coords_to_tensor(&coords);

    assert_eq!(tokens, vec![2]);
    assert_eq!(coords, vec![[1, 0, 0, 2]]);
    assert_eq!(
        coord_tensor,
        vec![1, 0, 0, 2]
    );
}

#[test]
fn video_readout_tokens_convert_to_sparse_patchify_coords() {
    let grid = SparseVideoReadoutGrid::new(2, 3, 4);
    let coords =
        batched_video_readout_tokens_to_coords(&[vec![0, 7, 23], vec![0, 7, 23]], grid)
            .unwrap();
    let single_batch = batched_video_readout_tokens_to_coords(&[vec![0, 7, 23]], grid).unwrap();
    let coord_values = video_readout_coords_to_tensor(&single_batch);

    assert_eq!(
        coords,
        vec![
            [0, 0, 0, 0],
            [0, 0, 1, 3],
            [0, 1, 2, 3],
            [1, 0, 0, 0],
            [1, 0, 1, 3],
            [1, 1, 2, 3],
        ]
    );
    assert_eq!(coord_values, vec![0, 0, 0, 0, 0, 0, 1, 3, 0, 1, 2, 3]);

    let err = video_readout_tokens_to_coords(&[24], grid, 0).unwrap_err();
    assert!(err.message().contains("outside grid"));
}

#[test]
fn trace_projects_directly_to_video_readout_tokens() {
    let trace = FrameFixationTrace::new(vec![
        FixationSet::new(Vec::new(), single(0.0), 1),
        FixationSet::new(
            vec![cell(
                0.75, 0.25, 0.5, 0.5, 1.0, 2,
            )],
            single(0.0),
            1,
        ),
    ]);
    let tokens = trace_to_video_readout_tokens(
        &trace,
        SparseReadoutGrid::new(2, 2),
        SparseVideoReadoutGrid::new(1, 4, 4),
        SparseReadoutOptions::default(),
        SparseVideoReadoutOptions::default()
            .with_tubelet_size(2)
            .with_exact_tokens(4),
    )
    .unwrap();
    let coords = trace_to_video_readout_coords(
        &trace,
        SparseReadoutGrid::new(2, 2),
        SparseVideoReadoutGrid::new(1, 4, 4),
        SparseReadoutOptions::default(),
        SparseVideoReadoutOptions::default()
            .with_tubelet_size(2)
            .with_exact_tokens(4),
        2,
    )
    .unwrap();
    let coord_tensor = video_readout_coords_to_tensor(&coords);

    assert_eq!(tokens, vec![2, 3, 6, 7]);
    assert_eq!(
        coords,
        vec![[2, 0, 0, 2], [2, 0, 0, 3], [2, 0, 1, 2], [2, 0, 1, 3]]
    );
    assert_eq!(
        coord_tensor,
        vec![2, 0, 0, 2, 2, 0, 0, 3, 2, 0, 1, 2, 2, 0, 1, 3]
    );
}

#[test]
fn generated_output_projects_directly_to_video_readout_tokens() {
    let mut config = AutoGazeConfig {
        scales: vec![32, 64],
        num_vision_tokens_each_frame: 20,
        ..AutoGazeConfig::default()
    };
    config.gaze_model_config.num_vision_tokens_each_frame = 20;
    config.gaze_model_config.vision_model_config.kernel_size = 16;
    let generated = AutoGazeGenerateOutput {
        gazing_pos: vec![vec![0, 4, 39]],
        num_gazing_each_frame: vec![2, 1],
        if_padded_gazing: vec![vec![false, false, false]],
        confidences: vec![singles(&[1.0, 0.8, 0.9])],
    };
    let tokens = generated_to_video_readout_tokens(
        &generated,
        &config,
        0,
        SparseReadoutGrid::new(4, 4),
        SparseVideoReadoutGrid::new(1, 4, 4),
        SparseReadoutOptions::default().with_max_tokens_per_frame(4),
        SparseVideoReadoutOptions::default()
            .with_tubelet_size(2)
            .with_exact_tokens(4),
    )
    .unwrap();
    let coords = generated_to_video_readout_coords(
        &generated,
        &config,
        0,
        SparseReadoutGrid::new(4, 4),
        SparseVideoReadoutGrid::new(1, 4, 4),
        SparseReadoutOptions::default().with_max_tokens_per_frame(4),
        SparseVideoReadoutOptions::default()
            .with_tubelet_size(2)
            .with_exact_tokens(4),
    )
    .unwrap();
    let coord_tensor = video_readout_coords_to_tensor(&coords);

    assert_eq!(tokens, vec![0, 1, 4, 5]);
    assert_eq!(
        coords,
        vec![[0, 0, 0, 0], [0, 0, 0, 1], [0, 0, 1, 0], [0, 0, 1, 1]]
    );
    assert_eq!(
        coord_tensor,
        vec![0, 0, 0, 0, 0, 0, 0, 1, 0, 0, 1, 0, 0, 0, 1, 1]
    );
}

#[test]
fn generated_video_readout_matches_burn_jepa_benchmark_adapter_shape() {
    const FRAMES: usize = 4;
    const CONNECTOR_TOKENS: usize = 196;
    const PATCH_SIZE: usize = 16;
    const TUBELET_SIZE: usize = 2;
    const TOP_K: usize = 2;
    const KEEP_TOKENS: usize = 8;

    let mut config = AutoGazeConfig {
        scales: vec![224],
        max_num_frames: FRAMES,
        num_vision_tokens_each_frame: CONNECTOR_TOKENS,
        ..AutoGazeConfig::default()
    };
    config.gaze_model_config.num_vision_tokens_each_frame = CONNECTOR_TOKENS;
    config.gaze_model_config.vision_model_config.kernel_size = PATCH_SIZE;

    let generated = AutoGazeGenerateOutput {
        gazing_pos: vec![vec![
            0,
            10,
            12,
            250,
            196 + 30,
            196 + 31,
            196 + 44,
            392 + 130,
            392 + 131,
            588 - 1,
            588 + 195,
        ]],
        num_gazing_each_frame: vec![4, 3, 2, 2],
        if_padded_gazing: vec![vec![
            false, false, false, false, false, false, false, true, false, false, false,
        ]],
        confidences: vec![singles(&[1.0; 11])],
    };
    let image_grid = SparseReadoutGrid::square_from_token_count(CONNECTOR_TOKENS).unwrap();
    let video_grid =
        SparseVideoPatchGeometry::square_patch(FRAMES, 64, 64, TUBELET_SIZE, PATCH_SIZE)
            .readout_grid()
            .unwrap();
    let readout_options = SparseReadoutOptions::default().with_max_fixations_per_frame(TOP_K);
    let video_options = SparseVideoReadoutOptions::default()
        .with_tubelet_size(TUBELET_SIZE)
        .with_exact_tokens(KEEP_TOKENS);

    let adapter_frame_tokens =
        adapter_generated_frame_tokens(&generated, FRAMES, TOP_K, CONNECTOR_TOKENS);
    let actual_frame_tokens =
        generated_to_frame_readout_tokens(&generated, &config, 0, image_grid, readout_options)
            .unwrap();
    let expected_video_tokens = adapter_project_video_tokens(
        &adapter_frame_tokens,
        image_grid,
        video_grid,
        TUBELET_SIZE,
        KEEP_TOKENS,
    );
    let actual_video_tokens = generated_to_video_readout_tokens(
        &generated,
        &config,
        0,
        image_grid,
        video_grid,
        readout_options,
        video_options,
    )
    .unwrap();
    let actual_coords = generated_to_video_readout_coords(
        &generated,
        &config,
        0,
        image_grid,
        video_grid,
        readout_options,
        video_options,
    )
    .unwrap();

    assert_eq!(
        adapter_frame_tokens,
        vec![vec![0, 10], vec![30, 31], vec![131], vec![195]]
    );
    assert_eq!(actual_frame_tokens, adapter_frame_tokens);
    assert_eq!(actual_video_tokens, expected_video_tokens);
    assert_eq!(
        actual_coords,
        video_readout_tokens_to_coords(&expected_video_tokens, video_grid, 0).unwrap()
    );
}

#[test]
fn video_projection_rejects_invalid_grids_and_tubelets() {
    let frame_tokens = vec![vec![0]];
    let err = frame_readout_tokens_to_video_tokens(
        &frame_tokens,
        SparseReadoutGrid::new(0, 1),
        SparseVideoReadoutGrid::new(1, 1, 1),
        SparseVideoReadoutOptions::default(),
    )
    .unwrap_err();
    assert!(err.message().contains("image readout grid"));

    let err = frame_readout_tokens_to_video_tokens(
        &frame_tokens,
        SparseReadoutGrid::new(1, 1),
        SparseVideoReadoutGrid::new(0, 1, 1),
        SparseVideoReadoutOptions::default(),
    )
    .unwrap_err();
    assert!(err.message().contains("video readout grid"));

    let err = frame_readout_tokens_to_video_tokens(
        &frame_tokens,
        SparseReadoutGrid::new(1, 1),
        SparseVideoReadoutGrid::new(1, 1, 1),
        SparseVideoReadoutOptions::default().with_tubelet_size(0),
    )
    .unwrap_err();
    assert!(err.message().contains("tubelet size"));
}

fn adapter_generated_frame_tokens(
    generated: &AutoGazeGenerateOutput,
    frames: usize,
    top_k: usize,
    connector_tokens: usize,
) -> Vec<Vec<usize>> {
    let tokens = generated.gazing_pos.first();
    let padded = generated.if_padded_gazing.first();
    let mut cursor = 0usize;
    (0..frames)
        .map(|frame_idx| {
            let frame_len = generated
                .num_gazing_each_frame
                .get(frame_idx)
                .copied()
                .unwrap_or(0);
            let frame_offset = (frame_idx * connector_tokens) as i64;
            let mut frame_tokens = Vec::with_capacity(top_k.min(frame_len));
            for local_idx in 0..frame_len {
                if frame_tokens.len() >= top_k {
                    break;
                }
                let token_index = cursor + local_idx;
                if padded
                    .and_then(|flags| flags.get(token_index))
                    .copied()
                    .unwrap_or(true)
                {
                    continue;
                }
                let Some(raw_token) =
                    tokens.and_then(|tokens| tokens.get(token_index)).copied()
                else {
                    continue;
                };
                let token = raw_token - frame_offset;
                if token < 0 {
                    continue;
                }
                let token = token as usize;
                if token < connector_tokens {
                    frame_tokens.push(token);
                }
            }
            cursor += frame_len;
            frame_tokens
        })
        .collect()
}

fn adapter_project_video_tokens(
    frame_tokens: &[Vec<usize>],
    image_grid: SparseReadoutGrid,
    video_grid: SparseVideoReadoutGrid,
    tubelet_size: usize,
    keep_tokens: usize,
) -> Vec<usize> {
    let target = keep_tokens.max(1).min(video_grid.token_count());
    let mut selected = Vec::with_capacity(target);
    let mut keep = vec![false; video_grid.token_count()];
    for tubelet in 0..video_grid.temporal_bins {
        let start = tubelet * tubelet_size;
        if start >= frame_tokens.len() {
            break;
        }
        let end = ((tubelet + 1) * tubelet_size).min(frame_tokens.len());
        for frame in &frame_tokens[start..end] {
            for &token in frame {
                let Some(rect) = image_grid.token_rect(token) else {
                    continue;
                };
                adapter_push_rect_tokens(
                    rect,
                    tubelet,
                    video_grid,
                    target,
                    &mut keep,
                    &mut selected,
                );
                if selected.len() >= target {
                    return selected;
                }
            }
        }
    }

    for index in adapter_evenly_spaced(video_grid.token_count(), target) {
        adapter_push_sparse_index(index, target, &mut keep, &mut selected);
        if selected.len() >= target {
            return selected;
        }
    }
    for index in 0..video_grid.token_count() {
        adapter_push_sparse_index(index, target, &mut keep, &mut selected);
        if selected.len() >= target {
            break;
        }
    }
    selected
}

fn adapter_push_rect_tokens(
    rect: SparseReadoutRect,
    tubelet: usize,
    video_grid: SparseVideoReadoutGrid,
    target: usize,
    keep: &mut [bool],
    selected: &mut Vec<usize>,
) {
    let Some((row_start, row_end, col_start, col_end)) =
        adapter_rect_patch_bounds(rect, video_grid)
    else {
        return;
    };
    for row in row_start..=row_end {
        for col in col_start..=col_end {
            let Some(index) = video_grid.token_index(tubelet, row, col) else {
                continue;
            };
            adapter_push_sparse_index(index, target, keep, selected);
            if selected.len() >= target {
                return;
            }
        }
    }
}

fn adapter_rect_patch_bounds(
    rect: SparseReadoutRect,
    grid: SparseVideoReadoutGrid,
) -> Option<(usize, usize, usize, usize)> {
    if rect.is_empty() || grid.height == 0 || grid.width == 0 {
        return None;
    }
    let col_start = ((value(rect.x0) * grid.width as f32).floor() as usize).min(grid.width - 1);
    let row_start = ((value(rect.y0) * grid.height as f32).floor() as usize).min(grid.height - 1);
    let col_end = ((value(rect.x1) * grid.width as f32).ceil() as usize)
        .saturating_sub(1)
        .min(grid.width - 1);
    let row_end = ((value(rect.y1) * grid.height as f32).ceil() as usize)
        .saturating_sub(1)
        .min(grid.height - 1);
    Some((row_start, row_end, col_start, col_end))
}

fn adapter_push_sparse_index(
    index: usize,
    target: usize,
    keep: &mut [bool],
    selected: &mut Vec<usize>,
) {
    if selected.len() >= target || index >= keep.len() || keep[index] {
        return;
    }
    keep[index] = true;
    selected.push(index);
}

fn adapter_evenly_spaced(dense_len: usize, keep: usize) -> Vec<usize> {
    let keep = keep.max(1).min(dense_len.max(1));
    if keep == dense_len {
        return (0..dense_len).collect();
    }
    let last = dense_len.saturating_sub(1);
    (0..keep)
        .map(|index| ((index * last) + (keep / 2)) / keep.max(1))
        .collect()
}
