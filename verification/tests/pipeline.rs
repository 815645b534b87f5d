use burn_autogaze::{
    autogaze_processor_value, check_frame_index, check_model_input, dense_grid_layout,
    last_rgba_frame, per_tile_trace_k, prepare_rgba_clip_for_trace, processor_resize_dimensions,
    recovered_scale_grid, remap_tile_point, resize_dimensions_preserving_aspect,
    resize_rgba_frame_to_dimensions, rgba_clip_to_processor_tensor, rgba_clip_to_tensor, tile_crop,
    AutoGazeClipShape, AutoGazeClipTensor, AutoGazeInferenceMode, AutoGazePipelineOptions,
    AutoGazePipelineSettings, AutoGazeRgbaClipShape, AutoGazeTile, AutoGazeTileLayout, Binary32,
    FixationPoint, AUTO_GAZE_PROCESSOR_SHORT_EDGE, DEFAULT_TILED_TILE_BATCH_SIZE,
};
use std::collections::HashSet;

fn single(x: f32) -> Binary32 {
    Binary32::from_bits(x.to_bits())
}

fn value(b: Binary32) -> f32 {
    f32::from_bits(b.to_bits())
}

fn cell(x: f32, y: f32, width: f32, height: f32, confidence: f32, grid: usize) -> FixationPoint {
    FixationPoint::with_grid_extent(
        single(x),
        single(y),
        single(width),
        single(height),
        single(confidence),
        grid,
    )
}

fn frame_values(tensor: &AutoGazeClipTensor, frame: usize) -> Vec<Binary32> {
    let len = tensor.shape.channels * tensor.shape.height * tensor.shape.width;
    tensor.values[frame * len..(frame + 1) * len].to_vec()
}

#[test]
fn rgba_clip_to_tensor_applies_autogaze_processor_affine() {
    let rgba = [10, 20, 30, 255, 40, 50, 60, 255];
    let shape = AutoGazeRgbaClipShape::new(1, 1, 2);
    let tensor = rgba_clip_to_tensor(&rgba, shape).expect("rgba tensor");

    let expected = [
        autogaze_processor_value(10, 0),
        autogaze_processor_value(40, 0),
        autogaze_processor_value(20, 1),
        autogaze_processor_value(50, 1),
        autogaze_processor_value(30, 2),
        autogaze_processor_value(60, 2),
    ];
    for (actual, expected) in tensor.values.iter().zip(expected) {
        assert!((value(*actual) - value(expected)).abs() < 1.0e-6);
    }
}

#[test]
fn rgba_clip_to_processor_tensor_preserves_aspect_before_model_square_resize() {
    let rgba = vec![128u8; 2 * 4 * 4];
    let shape = AutoGazeRgbaClipShape::new(1, 2, 4);
    let tensor = rgba_clip_to_processor_tensor(&rgba, shape).expect("processor tensor");

    assert_eq!(
        tensor.shape,
        AutoGazeClipShape::new(1, 3, AUTO_GAZE_PROCESSOR_SHORT_EDGE, 448)
    );
}

#[test]
fn rgba_clip_to_tensor_preserves_clip_channel_order_and_ignores_alpha() {
    let rgba = [1, 2, 3, 4, 10, 20, 30, 250];
    let shape = AutoGazeRgbaClipShape::new(2, 1, 1);
    let tensor = rgba_clip_to_tensor(&rgba, shape).expect("rgba tensor");

    let expected = [
        autogaze_processor_value(1, 0),
        autogaze_processor_value(2, 1),
        autogaze_processor_value(3, 2),
        autogaze_processor_value(10, 0),
        autogaze_processor_value(20, 1),
        autogaze_processor_value(30, 2),
    ];
    assert_eq!(tensor.values.len(), expected.len());
    for (actual, expected) in tensor.values.iter().zip(expected) {
        assert!((value(*actual) - value(expected)).abs() < 1.0e-6);
    }
}

#[test]
fn rgba_clip_display_frame_comes_from_same_model_input_tensor() {
    let rgba = [1, 2, 3, 255, 10, 20, 30, 128];
    let shape = AutoGazeRgbaClipShape::new(2, 1, 1);
    let video = rgba_clip_to_tensor(&rgba, shape).expect("rgba tensor");
    check_frame_index(1, video.shape.clip_len).expect("frame tensor");
    let frame = frame_values(&video, 1);

    let expected = [
        autogaze_processor_value(10, 0),
        autogaze_processor_value(20, 1),
        autogaze_processor_value(30, 2),
    ];
    assert_eq!(frame.len(), expected.len());
    for (actual, expected) in frame.iter().zip(expected) {
        assert!((value(*actual) - value(expected)).abs() < 1.0e-6);
    }
}

#[test]
fn prepared_rgba_trace_run_uses_full_clip_without_streaming_cache() {
    let rgba = [1, 2, 3, 255, 10, 20, 30, 128];
    let shape = AutoGazeRgbaClipShape::new(2, 1, 1);

    let prepared = prepare_rgba_clip_for_trace(
        &rgba,
        shape,
        AutoGazeInferenceMode::TiledResizeToGrid { tile_size: 224 },
        false,
    )
    .expect("prepared run");

    assert_eq!(prepared.frame_index, 1);
    assert_eq!(prepared.model_frames, 2);
    assert_eq!(prepared.video.shape, AutoGazeClipShape::new(2, 3, 1, 1));
}

#[test]
fn prepared_rgba_trace_run_uses_latest_frame_with_streaming_cache() {
    let rgba = [1, 2, 3, 255, 10, 20, 30, 128];
    let shape = AutoGazeRgbaClipShape::new(2, 1, 1);

    let prepared = prepare_rgba_clip_for_trace(
        &rgba,
        shape,
        AutoGazeInferenceMode::TiledResizeToGrid { tile_size: 224 },
        true,
    )
    .expect("prepared run");
    let values = &prepared.video.values;

    let expected = [
        autogaze_processor_value(10, 0),
        autogaze_processor_value(20, 1),
        autogaze_processor_value(30, 2),
    ];
    assert_eq!(prepared.frame_index, 0);
    assert_eq!(prepared.model_frames, 1);
    assert_eq!(values.len(), expected.len());
    for (actual, expected) in values.iter().zip(expected) {
        assert!((value(*actual) - value(expected)).abs() < 1.0e-6);
    }
}

#[test]
fn last_rgba_frame_rejects_mismatched_clip_lengths() {
    let rgba = [1, 2, 3, 255];
    let shape = AutoGazeRgbaClipShape::new(2, 1, 1);

    let err = last_rgba_frame(&rgba, shape).expect_err("expected length mismatch");

    assert!(
        err.message().contains("expected 8 RGBA bytes"),
        "unexpected error: {}",
        err.message()
    );
}

#[test]
fn remap_tile_point_recovers_upstream_scale_grid() {
    let point = cell(0.5, 0.5, 1.0 / 14.0, 1.0 / 14.0, 1.0, 14);
    let tile = AutoGazeTile::new(224, 224, 224, 224);
    let layout = AutoGazeTileLayout::tiled(1080, 1920, 224, 224);

    let remapped = remap_tile_point(point, tile, &layout).expect("valid tile point");

    assert!((value(remapped.x) - 21.5 / 120.0).abs() < 1.0e-6);
    assert!((value(remapped.y) - 21.5 / 67.0).abs() < 1.0e-6);
    assert!((value(remapped.cell_width()) - 1.0 / 120.0).abs() < 1.0e-6);
    assert!((value(remapped.cell_height()) - 1.0 / 67.0).abs() < 1.0e-6);
    assert_eq!(remapped.cell_grid(), Some(14));
}

#[test]
fn remap_tile_point_recovers_all_anyres_scale_grids() {
    let tile = AutoGazeTile::new(224, 224, 224, 224);
    let layout = AutoGazeTileLayout::tiled(448, 448, 224, 224);

    for (grid, expected_grid) in [(2, 4), (4, 8), (7, 14), (14, 28)] {
        let point = cell(
            (grid as f32 - 0.5) / grid as f32,
            (grid as f32 - 0.5) / grid as f32,
            1.0 / grid as f32,
            1.0 / grid as f32,
            1.0,
            grid,
        );
        let remapped = remap_tile_point(point, tile, &layout).expect("valid tile point");

        assert_eq!(remapped.cell_grid(), Some(grid));
        assert!(
            (value(remapped.x) - (expected_grid as f32 - 0.5) / expected_grid as f32).abs()
                < 1.0e-6
        );
        assert!(
            (value(remapped.y) - (expected_grid as f32 - 0.5) / expected_grid as f32).abs()
                < 1.0e-6
        );
        assert!((value(remapped.cell_width()) - 1.0 / expected_grid as f32).abs() < 1.0e-6);
        assert!((value(remapped.cell_height()) - 1.0 / expected_grid as f32).abs() < 1.0e-6);
    }
}

#[test]
fn remap_tile_point_stitches_full_1080p_scale_grids_without_holes() {
    let layout = AutoGazeTileLayout::tiled(1080, 1920, 224, 224);

    for grid in [2, 4, 7, 14] {
        let grid_width = recovered_scale_grid(layout.source_width, layout.tile_size, grid);
        let grid_height = recovered_scale_grid(layout.source_height, layout.tile_size, grid);
        let mut seen = HashSet::with_capacity(grid_width * grid_height);

        for tile in layout.tiles.iter().copied() {
            for row in 0..grid {
                for col in 0..grid {
                    let point = cell(
                        (col as f32 + 0.5) / grid as f32,
                        (row as f32 + 0.5) / grid as f32,
                        1.0 / grid as f32,
                        1.0 / grid as f32,
                        1.0,
                        grid,
                    );
                    let Some(remapped) = remap_tile_point(point, tile, &layout) else {
                        continue;
                    };

                    assert_eq!(remapped.cell_grid(), Some(grid));
                    assert!(
                        (value(remapped.cell_width()) - 1.0 / grid_width as f32).abs() < 1.0e-6
                    );
                    assert!(
                        (value(remapped.cell_height()) - 1.0 / grid_height as f32).abs() < 1.0e-6
                    );

                    let global_col = ((value(remapped.x) * grid_width as f32).floor() as usize)
                        .min(grid_width - 1);
                    let global_row = ((value(remapped.y) * grid_height as f32).floor() as usize)
                        .min(grid_height - 1);
                    assert!(
                        seen.insert((global_col, global_row)),
                        "duplicate {grid}x{grid} remap cell {global_col},{global_row}"
                    );
                }
            }
        }

        assert_eq!(
            seen.len(),
            grid_width * grid_height,
            "{grid}x{grid} remap left holes in {grid_width}x{grid_height} full-frame grid"
        );
    }
}

#[test]
fn tiled_layout_pads_edges_instead_of_overlapping_them() {
    let layout = AutoGazeTileLayout::tiled(1080, 1920, 224, 224);

    assert_eq!(layout.tile_count(), 45);
    assert_eq!(layout.tiles[8], AutoGazeTile::new(1792, 0, 224, 224));
    assert_eq!(layout.tiles[44], AutoGazeTile::new(1792, 896, 224, 224));
}

#[test]
fn resized_grid_layout_uses_complete_anyres_tiles() {
    let layout = AutoGazeTileLayout::resized_grid(1080, 1920, 224);

    assert_eq!(layout.tile_count(), 45);
    assert_eq!(layout.source_width, 2016);
    assert_eq!(layout.source_height, 1120);
    assert_eq!(layout.tiles[8], AutoGazeTile::new(1792, 0, 224, 224));
    assert_eq!(layout.tiles[44], AutoGazeTile::new(1792, 896, 224, 224));
}

#[test]
fn resized_grid_remap_preserves_complete_scale_grids() {
    let layout = AutoGazeTileLayout::resized_grid(1080, 1920, 224);

    for (grid, expected_width, expected_height) in
        [(2, 18, 10), (4, 36, 20), (7, 63, 35), (14, 126, 70)]
    {
        assert_eq!(
            recovered_scale_grid(layout.source_width, layout.tile_size, grid),
            expected_width
        );
        assert_eq!(
            recovered_scale_grid(layout.source_height, layout.tile_size, grid),
            expected_height
        );

        let point = cell(
            (grid as f32 - 0.5) / grid as f32,
            (grid as f32 - 0.5) / grid as f32,
            1.0 / grid as f32,
            1.0 / grid as f32,
            1.0,
            grid,
        );
        let bottom_right = layout.tiles[44];
        let remapped = remap_tile_point(point, bottom_right, &layout).expect("complete tile point");

        assert_eq!(remapped.cell_grid(), Some(grid));
        assert!(
            (value(remapped.x) - (expected_width as f32 - 0.5) / expected_width as f32).abs()
                < 1.0e-6
        );
        assert!(
            (value(remapped.y) - (expected_height as f32 - 0.5) / expected_height as f32).abs()
                < 1.0e-6
        );
        assert!((value(remapped.cell_width()) - 1.0 / expected_width as f32).abs() < 1.0e-6);
        assert!((value(remapped.cell_height()) - 1.0 / expected_height as f32).abs() < 1.0e-6);
    }
}

#[test]
fn tiled_trace_uses_generation_budget_not_display_top_k_per_tile() {
    assert_eq!(per_tile_trace_k(198, 2), 198);
    assert_eq!(per_tile_trace_k(10, 24), 24);
    assert_eq!(per_tile_trace_k(0, 0), 1);
}

#[test]
fn remap_tile_point_discards_padded_edge_cells() {
    let layout = AutoGazeTileLayout::tiled(3, 3, 2, 2);
    let tile = AutoGazeTile::new(2, 2, 2, 2);
    let padded = cell(0.75, 0.75, 0.5, 0.5, 1.0, 2);

    assert!(remap_tile_point(padded, tile, &layout).is_none());
}

#[test]
fn remap_tile_point_discards_scale_grid_rows_beyond_source_extent() {
    let layout = AutoGazeTileLayout::tiled(1080, 1920, 224, 224);
    let bottom_tile = AutoGazeTile::new(0, 896, 224, 224);
    let padded_row = cell(0.5, 5.5 / 7.0, 1.0 / 7.0, 1.0 / 7.0, 1.0, 7);
    let last_valid_row = cell(0.5, 4.5 / 7.0, 1.0 / 7.0, 1.0 / 7.0, 1.0, 7);

    assert!(remap_tile_point(padded_row, bottom_tile, &layout).is_none());
    let remapped = remap_tile_point(last_valid_row, bottom_tile, &layout).expect("last valid row");
    assert!((value(remapped.y) - 32.5 / 33.0).abs() < 1.0e-6);
    assert!((value(remapped.cell_height()) - 1.0 / 33.0).abs() < 1.0e-6);
}

#[test]
fn tiled_fixation_budget_scales_with_tile_count() {
    let mode = AutoGazeInferenceMode::tiled_full_resolution(16, 16);
    let layout = AutoGazeTileLayout::tiled(32, 48, 16, 16);

    assert_eq!(layout.tile_count(), 6);
    assert_eq!(mode.fixation_budget(2, 32, 48), 12);
    assert_eq!(
        AutoGazeInferenceMode::resize_to_model_input().fixation_budget(2, 32, 48),
        2
    );
}

#[test]
fn resized_grid_fixation_budget_scales_with_anyres_tile_count() {
    let mode = AutoGazeInferenceMode::tiled_resize_to_grid(16);
    let layout = AutoGazeTileLayout::resized_grid(31, 47, 16);

    assert_eq!(layout.tile_count(), 6);
    assert_eq!(mode.fixation_budget(2, 31, 47), 12);
}

#[test]
fn pipeline_default_tile_batch_size_uses_shared_realtime_default() {
    let settings = AutoGazePipelineSettings::new(1, None);
    assert_eq!(settings.tile_batch_size, DEFAULT_TILED_TILE_BATCH_SIZE);
}

#[test]
fn pipeline_options_apply_wrapper_runtime_overrides() {
    let settings = AutoGazePipelineSettings::new(1, Some(single(0.7))).with_options(
        AutoGazePipelineOptions::default()
            .with_max_gaze_tokens_each_frame(7)
            .without_task_loss_requirement()
            .with_tile_batch_size(3),
    );

    assert_eq!(settings.max_gaze_tokens_each_frame, 7);
    assert_eq!(settings.task_loss_requirement, None);
    assert_eq!(settings.tile_batch_size, 3);
}

#[test]
fn pipeline_options_reset_to_model_defaults() {
    let mut settings = AutoGazePipelineSettings::new(1, Some(single(0.7)))
        .with_max_gaze_tokens_each_frame(7)
        .with_task_loss_requirement(None)
        .with_tile_batch_size(3);

    settings.apply_options(AutoGazePipelineOptions::default());

    assert_eq!(settings.max_gaze_tokens_each_frame, 1);
    assert_eq!(settings.task_loss_requirement, Some(single(0.7)));
    assert_eq!(settings.tile_batch_size, 3);
}

#[test]
fn try_embed_model_input_rejects_non_square_model_input_without_panic() {
    let err = check_model_input(16, 8, 12).expect_err("model input must be square");
    assert!(
        err.message().contains("must be square 16x16, got 8x12"),
        "unexpected error: {}",
        err.message()
    );
    assert!(check_model_input(16, 16, 16).is_ok());
}

#[test]
fn crop_of_an_edge_tile_is_padded_to_its_size() {
    let crop = tile_crop(AutoGazeTile::new(1, 1, 2, 2), 2, 2);
    assert_eq!((crop.x, crop.y, crop.width, crop.height), (1, 1, 1, 1));
    assert_eq!((crop.pad_right, crop.pad_bottom), (1, 1));
    let crop = tile_crop(AutoGazeTile::new(0, 0, 2, 2), 2, 2);
    assert_eq!((crop.width, crop.height, crop.pad_right, crop.pad_bottom), (2, 2, 0, 0));
}

#[test]
fn resized_grids_are_dense_and_overlapping_tiles_are_not() {
    assert!(dense_grid_layout(&AutoGazeTileLayout::resized_grid(4, 6, 2)));
    assert!(!dense_grid_layout(&AutoGazeTileLayout::tiled(4, 6, 2, 1)));
    assert!(!dense_grid_layout(&AutoGazeTileLayout::tiled(5, 6, 2, 2)));
}

#[test]
fn processor_values_match_machine_arithmetic() {
    let mean = [0.485f32, 0.456, 0.406];
    let std = [0.229f32, 0.224, 0.225];
    for v in 0..=255u8 {
        for channel in 0..3 {
            let rescaled = v as f32 * (1.0 / 127.5) - 1.0;
            let expected = (rescaled - mean[channel]) / std[channel];
            assert_eq!(
                autogaze_processor_value(v, channel).to_bits(),
                expected.to_bits()
            );
        }
    }
}

#[test]
fn processor_dimensions_match_machine_arithmetic() {
    for (height, width) in [(1080, 1920), (2, 4), (720, 721), (224, 500), (1, 1), (0, 7), (333, 17)]
    {
        let h = height.max(1);
        let w = width.max(1);
        let edge = h.min(w);
        let expected = if edge == 224 {
            (h, w)
        } else {
            let scale = 224.0 / edge as f64;
            (
                ((h as f64 * scale).round() as usize).max(1),
                ((w as f64 * scale).round() as usize).max(1),
            )
        };
        assert_eq!(processor_resize_dimensions(height, width, 224), expected);
    }
}

#[test]
fn resize_dimensions_keep_the_aspect() {
    assert_eq!(
        resize_dimensions_preserving_aspect(1920, 1080, Some(640), None),
        (640, 360)
    );
    assert_eq!(
        resize_dimensions_preserving_aspect(1920, 1080, None, Some(361)),
        (642, 361)
    );
    assert_eq!(
        resize_dimensions_preserving_aspect(10, 10, Some(0), Some(7)),
        (1, 7)
    );
    assert_eq!(resize_dimensions_preserving_aspect(0, 9, None, None), (1, 9));
    assert_eq!(
        resize_dimensions_preserving_aspect(4_000_000_000, 1, Some(1), None),
        (1, 1)
    );
    assert_eq!(
        resize_dimensions_preserving_aspect(1, 4_000_000_000, Some(100), None),
        (100, u32::MAX)
    );
}

#[test]
fn resizing_a_frame_runs_the_triangle_filter() {
    let frame = vec![0, 0, 0, 255, 100, 100, 100, 255];
    let (resized, width, height) =
        resize_rgba_frame_to_dimensions(frame.clone(), 2, 1, Some(4), Some(1));
    assert_eq!((width, height), (4, 1));
    assert_eq!(resized.len(), 16);
    let reds: Vec<u8> = resized.chunks(4).map(|pixel| pixel[0]).collect();
    assert_eq!(reds, vec![0, 25, 75, 100]);

    let image = image::RgbaImage::from_raw(2, 1, frame.clone()).expect("frame");
    let direct = image::imageops::resize(&image, 4, 1, image::imageops::FilterType::Triangle);
    assert_eq!(resized, direct.into_raw());

    let (same, width, height) = resize_rgba_frame_to_dimensions(frame.clone(), 2, 1, None, None);
    assert_eq!((same, width, height), (frame, 2, 1));
}

#[test]
fn processor_tensor_holds_the_resized_frames() {
    let rgba: Vec<u8> = (0..2 * 2 * 3 * 4).map(|i| (i * 7 % 256) as u8).collect();
    let shape = AutoGazeRgbaClipShape::new(2, 2, 3);
    let (height, width) = processor_resize_dimensions(2, 3, AUTO_GAZE_PROCESSOR_SHORT_EDGE);
    let mut resized = Vec::new();
    for frame in rgba.chunks(2 * 3 * 4) {
        let image = image::RgbaImage::from_raw(3, 2, frame.to_vec()).expect("frame");
        let larger = image::imageops::resize(
            &image,
            width as u32,
            height as u32,
            image::imageops::FilterType::Triangle,
        );
        resized.extend(larger.into_raw());
    }
    let expected =
        rgba_clip_to_tensor(&resized, AutoGazeRgbaClipShape::new(2, height, width)).unwrap();
    assert!(shape.can_be_resized());
    assert_eq!(rgba_clip_to_processor_tensor(&rgba, shape).unwrap(), expected);
}

#[test]
fn clip_errors_name_what_is_wrong() {
    let err = rgba_clip_to_tensor(&[], AutoGazeRgbaClipShape::new(0, 1, 1)).unwrap_err();
    assert_eq!(err.message(), "RGBA clip dimensions must be nonzero");
    let err =
        rgba_clip_to_tensor(&[], AutoGazeRgbaClipShape::new(1, usize::MAX, 2)).unwrap_err();
    assert_eq!(err.message(), "RGBA clip dimensions overflow");
    let err =
        rgba_clip_to_tensor(&[], AutoGazeRgbaClipShape::new(1, usize::MAX / 2, 1)).unwrap_err();
    assert_eq!(err.message(), "RGBA clip byte length overflow");
    let err = rgba_clip_to_tensor(&[0; 5], AutoGazeRgbaClipShape::new(1, 2, 3)).unwrap_err();
    assert_eq!(
        err.message(),
        "expected 24 RGBA bytes for 1 frame(s) at 3x2, got 5"
    );
    let err = last_rgba_frame(&[], AutoGazeRgbaClipShape::new(1, usize::MAX, 2)).unwrap_err();
    assert_eq!(err.message(), "RGBA frame byte length overflow");
    let err = last_rgba_frame(&[], AutoGazeRgbaClipShape::new(usize::MAX, 1, 1)).unwrap_err();
    assert_eq!(err.message(), "RGBA clip byte length overflow");
    let err = check_frame_index(3, 2).unwrap_err();
    assert_eq!(err.message(), "frame index 3 is out of bounds for 2 frame(s)");
    let err = AutoGazeClipShape::new(1, 2, 3, 4).check_values(5).unwrap_err();
    assert_eq!(
        err.message(),
        "expected 24 frame values for clip shape AutoGazeClipShape { clip_len: 1, channels: 2, height: 3, width: 4 }, got 5"
    );
    let err =
        rgba_clip_to_processor_tensor(&[0; 3], AutoGazeRgbaClipShape::new(1, 2, 3)).unwrap_err();
    assert_eq!(
        err.message(),
        "expected 24 RGBA bytes for 1 frame(s) at 3x2, got 3"
    );
    let err = rgba_clip_to_processor_tensor(&[], AutoGazeRgbaClipShape::new(1, usize::MAX, 2))
        .unwrap_err();
    assert_eq!(err.message(), "RGBA clip dimensions overflow");
    let err =
        rgba_clip_to_processor_tensor(&[], AutoGazeRgbaClipShape::new(1, usize::MAX / 2, 1))
            .unwrap_err();
    assert_eq!(err.message(), "RGBA frame byte length overflow");
}

#[test]
fn oversized_frames_cannot_be_resized() {
    assert!(!AutoGazeRgbaClipShape::new(1, 1, 0x40_0001).can_be_resized());
    assert!(AutoGazeRgbaClipShape::new(1, 1080, 1920).can_be_resized());
    assert!(AutoGazeRgbaClipShape::new(1, 224, 0x40_0000).can_be_resized());
}

#[test]
fn the_aspect_is_kept_exactly_where_it_can_be() {
    assert_eq!(
        resize_dimensions_preserving_aspect(1920, 1080, Some(640), None),
        (640, 360)
    );
    assert_eq!(
        resize_dimensions_preserving_aspect(1080, 1920, None, Some(640)),
        (360, 640)
    );
    for (width, height, target, quotient) in
        [(3u32, 7u32, 3_000_000u32, 7_000_000u32), (4, 2, 2_000_000_002, 1_000_000_001)]
    {
        assert_eq!(
            resize_dimensions_preserving_aspect(width, height, Some(target), None),
            (target, quotient)
        );
        assert_eq!(
            resize_dimensions_preserving_aspect(height, width, None, Some(target)),
            (quotient, target)
        );
    }
    assert_eq!(resize_dimensions_preserving_aspect(0, 9, None, None), (1, 9));
    assert_eq!(
        resize_dimensions_preserving_aspect(5, 9, Some(0), Some(4)),
        (1, 4)
    );
}

#[test]
fn long_sides_are_resized_where_pixels_can_be_placed() {
    let fits = |height: usize, width: usize| {
        AutoGazeRgbaClipShape::new(1, height, width).can_be_resized()
    };
    assert!(fits(1 << 22, 1000));
    assert!(fits(1 << 23, 1000));
    assert!(fits(1000, 1 << 24));
    assert!(!fits(1000, (1 << 24) + 4));
    assert!(fits(100_000, 1 << 25));
    // A pixel of the result would cover less than one of the frame.
    assert!(!fits(1 << 23, 100));
}
