use burn_autogaze::{
    adapt_video_channels, cache_step, cached_sequence_len, causal_attention_bias_for_query,
    check_fixation_mask, check_pyramid_mask, check_trace_masks, conv_tail,
    default_max_gaze_tokens_each_frame, ensure_image_shape, frame_readout_tokens_to_video_tokens,
    generates_cached, key_repeats, plan_compaction, plan_mask, plan_pyramid,
    readout_rects_to_tokens, remap_tile_point, requested_steps, sort_points_by_confidence,
    sparse_token_count, tile_chunks, tile_crop, tile_origins, traces_to_frame_points,
    truncated_len, video_readout_tokens_to_coords, AutoGazeDecodeStrategy, AutoGazeLoadOptions,
    AutoGazeScaleTokenMask, AutoGazeTile, AutoGazeTileLayout, Binary32, ChannelPlan, Compaction, FixationPoint,
    FixationSet, FrameFixationTrace, ImagePyramidLevel, MaskPlan, SparseReadoutGrid,
    SparseReadoutOptions, SparseReadoutRect, SparseVideoReadoutGrid, SparseVideoReadoutOptions,
    TiledRun,
};

fn single(x: f32) -> Binary32 {
    Binary32::from_bits(x.to_bits())
}

fn value(b: Binary32) -> f32 {
    f32::from_bits(b.to_bits())
}

fn point(x: f32, y: f32, extent: f32, confidence: f32, grid: usize) -> FixationPoint {
    FixationPoint::with_grid_extent(
        single(x),
        single(y),
        single(extent),
        single(extent),
        single(confidence),
        grid,
    )
}

#[test]
fn caches_grow_behind_what_they_hold() {
    let step = cache_step(None, 7, 3);
    assert_eq!((step.past_len, step.present_len, step.capacity), (0, 7, 7));
    let step = cache_step(Some(7), 2, 64);
    assert_eq!((step.past_len, step.present_len, step.capacity), (7, 9, 64));
    assert_eq!(cache_step(None, 0, 0).capacity, 1);
    assert_eq!(key_repeats(8, 2), 4);
    assert_eq!(key_repeats(1, 4), 1);
    assert_eq!(key_repeats(8, 0), 8);
    assert_eq!(cached_sequence_len(&None), 0);
    assert_eq!(cached_sequence_len(&Some(vec![])), 0);
    assert_eq!(cached_sequence_len(&Some(vec![5, 5])), 5);
    assert!(generates_cached(2));
    assert!(!generates_cached(1));
}

#[test]
fn compaction_keeps_the_newest_entries() {
    assert_eq!(plan_compaction(10, 0), None);
    assert_eq!(plan_compaction(0, 4), None);
    assert_eq!(plan_compaction(10, 4), Some(Compaction { from: 4, to: 10, keep: 6 }));
    assert_eq!(plan_compaction(3, 9), Some(Compaction { from: 3, to: 3, keep: 0 }));
    let plan = plan_compaction(5, 2).unwrap();
    let mut entries = vec![10, 11, 12, 13, 14];
    entries.copy_within(plan.from..plan.to, 0);
    assert_eq!(&entries[..plan.keep], &[12, 13, 14]);
    assert_eq!(truncated_len(10, 4), 6);
    assert_eq!(truncated_len(3, 4), 0);
}

#[test]
fn bias_hides_later_keys_and_masked_keys() {
    // Two queries behind one cached key.
    assert_eq!(causal_attention_bias_for_query(2, 3, 1, &None), vec![0, 0, 1, 0, 0, 0]);
    assert_eq!(
        causal_attention_bias_for_query(2, 3, 1, &Some(vec![vec![0, 1, 1], vec![1, 1, 0]])),
        vec![1, 0, 1, 1, 0, 0, 0, 0, 2, 0, 0, 1]
    );
    // A query over the cache sees what the last query over everything sees.
    let all = causal_attention_bias_for_query(3, 3, 0, &None);
    let last = causal_attention_bias_for_query(1, 3, 2, &None);
    assert_eq!(&all[6..9], &last[..]);
}

#[test]
fn convolutions_keep_what_they_look_back_to() {
    assert_eq!(conv_tail(5, 3), (3, 5));
    assert_eq!(conv_tail(1, 3), (0, 1));
    assert_eq!(conv_tail(4, 1), (4, 4));
    assert_eq!(conv_tail(4, 0), (4, 4));
    assert_eq!(adapt_video_channels(3), ChannelPlan::Keep);
    assert_eq!(adapt_video_channels(1), ChannelPlan::Repeat);
    assert_eq!(adapt_video_channels(2), ChannelPlan::Pad { keep: 2 });
    assert_eq!(adapt_video_channels(4), ChannelPlan::Pad { keep: 3 });
}

#[test]
fn decode_strategies_have_chunks_of_at_least_one_step() {
    assert_eq!(AutoGazeDecodeStrategy::default(), AutoGazeDecodeStrategy::HostGreedy);
    assert_eq!(AutoGazeDecodeStrategy::device_greedy(0).chunk_size(), 1);
    assert_eq!(
        AutoGazeDecodeStrategy::device_terminal_greedy(0).normalized(),
        AutoGazeDecodeStrategy::DeviceTerminalGreedy { chunk_size: 1 }
    );
    assert_eq!(AutoGazeDecodeStrategy::device_greedy(8).chunk_size(), 8);
    assert_eq!(requested_steps(0, 10, 4, 3), 4);
    assert_eq!(requested_steps(6, 10, 4, 3), 2);
    assert_eq!(requested_steps(10, 10, 4, 3), 1);
    assert_eq!(requested_steps(0, 3, 0, 0), 1);
}

#[test]
fn pyramid_levels_partition_the_tokens() {
    let plan = plan_pyramid(&[
        ImagePyramidLevel::new(2, 3),
        ImagePyramidLevel::new(0, 4),
        ImagePyramidLevel::new(1, 1),
    ])
    .unwrap();
    assert_eq!(plan.level_token_ranges, vec![(0, 6), (6, 10), (10, 11)]);
    assert_eq!(plan.levels[1], ImagePyramidLevel::new(1, 4));
    assert_eq!(ImagePyramidLevel::new(2, 3).token_count(), 6);
    assert_eq!(
        plan_pyramid(&[]).err().expect("error").message(),
        "image pyramid must contain at least one level"
    );
}

#[test]
fn masks_are_fitted_to_images() {
    assert_eq!(
        plan_mask(1, 3, 4, 4, 2, 8, 8).unwrap(),
        MaskPlan { average_channels: true, resize: true, repeat: true }
    );
    assert_eq!(
        plan_mask(2, 1, 8, 8, 2, 8, 8).unwrap(),
        MaskPlan { average_channels: false, resize: false, repeat: false }
    );
    let message = |r: Result<MaskPlan, burn_autogaze::AutoGazeError>| r.err().unwrap().message();
    assert_eq!(message(plan_mask(3, 1, 8, 8, 2, 8, 8)), "mask batch must be 1 or match image batch");
    assert_eq!(message(plan_mask(1, 0, 8, 8, 2, 8, 8)), "mask channels must be nonzero");
}

#[test]
fn image_checks_name_what_is_wrong() {
    let message = |r: Result<(), burn_autogaze::AutoGazeError>| r.err().unwrap().message();
    assert!(ensure_image_shape(1, 1, 1, 1).is_ok());
    assert_eq!(message(ensure_image_shape(0, 1, 1, 1)), "image batch must be nonzero");
    assert_eq!(message(ensure_image_shape(1, 0, 1, 1)), "image channels must be nonzero");
    assert_eq!(message(ensure_image_shape(1, 1, 0, 1)), "image dimensions must be nonzero");
    assert_eq!(message(check_pyramid_mask(1, 0, 1)), "image dimensions must be nonzero");
    assert_eq!(message(check_pyramid_mask(0, 1, 1)), "mask batch must be nonzero");
    assert!(check_pyramid_mask(1, 1, 1).is_ok());
    assert_eq!(message(check_fixation_mask(0, 1, 1)), "mask batch must be nonzero");
    assert_eq!(message(check_fixation_mask(1, 1, 0)), "mask dimensions must be nonzero");
    assert!(check_fixation_mask(1, 1, 1).is_ok());
    assert_eq!(message(check_trace_masks(0, 1, 1)), "at least one fixation trace is required");
    assert_eq!(message(check_trace_masks(1, 0, 1)), "mask dimensions must be nonzero");
    assert!(check_trace_masks(1, 1, 1).is_ok());
    assert_eq!(sparse_token_count(10, 2, 4).unwrap(), 4);
    assert_eq!(sparse_token_count(3, 2, 4).unwrap(), 3);
    assert_eq!(sparse_token_count(3, 2, 0).unwrap(), 1);
    let count = |r: Result<usize, burn_autogaze::AutoGazeError>| r.err().unwrap().message();
    assert_eq!(count(sparse_token_count(0, 2, 4)), "image pyramid tokens must be nonempty");
    assert_eq!(count(sparse_token_count(3, 0, 4)), "image pyramid token channels must be nonzero");
}

#[test]
fn projection_errors_name_what_is_wrong() {
    let rect = SparseReadoutRect::new(single(0.0), single(0.0), single(1.0), single(1.0));
    assert_eq!(
        readout_rects_to_tokens(&[rect], SparseReadoutGrid::new(0, 1), SparseReadoutOptions::default())
            .err()
            .unwrap()
            .message(),
        "sparse readout grid dimensions must be nonzero"
    );
    let tokens = vec![vec![0]];
    let video = |image: SparseReadoutGrid, grid: SparseVideoReadoutGrid, tubelet: usize| {
        frame_readout_tokens_to_video_tokens(
            &tokens,
            image,
            grid,
            SparseVideoReadoutOptions::default().with_tubelet_size(tubelet),
        )
        .err()
        .unwrap()
        .message()
    };
    let image_grid = SparseReadoutGrid::new(1, 1);
    let video_grid = SparseVideoReadoutGrid::new(1, 1, 1);
    assert_eq!(
        video(SparseReadoutGrid::new(0, 1), video_grid, 1),
        "sparse image readout grid dimensions must be nonzero"
    );
    assert_eq!(
        video(image_grid, SparseVideoReadoutGrid::new(1, 0, 1), 1),
        "sparse video readout grid dimensions must be nonzero"
    );
    assert_eq!(
        video(image_grid, video_grid, 0),
        "sparse video readout tubelet size must be nonzero"
    );
    assert_eq!(
        video_readout_tokens_to_coords(&[1], video_grid, 0).err().unwrap().message(),
        "sparse video readout token index outside grid"
    );
    assert_eq!(
        video_readout_tokens_to_coords(&[0], video_grid, 0x1_0000_0000).err().unwrap().message(),
        "sparse video readout batch index exceeds u32"
    );
    let wide = 0x1_0000_0001usize;
    let last = wide - 1;
    let coords = |grid: SparseVideoReadoutGrid| {
        video_readout_tokens_to_coords(&[last], grid, 0).err().unwrap().message()
    };
    assert_eq!(
        coords(SparseVideoReadoutGrid::new(wide, 1, 1)),
        "sparse video readout temporal bin exceeds u32"
    );
    assert_eq!(
        coords(SparseVideoReadoutGrid::new(1, wide, 1)),
        "sparse video readout row exceeds u32"
    );
    assert_eq!(
        coords(SparseVideoReadoutGrid::new(1, 1, wide)),
        "sparse video readout col exceeds u32"
    );
}

#[test]
fn tiles_cover_the_frame() {
    assert_eq!(tile_origins(10, 4), vec![0, 4, 8]);
    assert_eq!(tile_origins(8, 4), vec![0, 4]);
    assert_eq!(tile_origins(0, 4), vec![0]);
    assert_eq!(tile_chunks(5, 2), vec![(0, 2), (2, 2), (4, 1)]);
    assert_eq!(tile_chunks(0, 2), Vec::<(usize, usize)>::new());
    let crop = tile_crop(AutoGazeTile::new(8, 0, 4, 4), 4, 10);
    assert_eq!((crop.x, crop.y, crop.width, crop.height), (8, 0, 2, 4));
    assert_eq!((crop.pad_right, crop.pad_bottom), (2, 0));
}

fn tile_trace(points: Vec<FixationPoint>, stop: f32) -> FrameFixationTrace {
    FrameFixationTrace::new(vec![FixationSet { points, stop_probability: single(stop) }])
}

#[test]
fn tiled_runs_do_not_depend_on_how_tiles_are_batched() {
    let layout = || AutoGazeTileLayout::tiled(32, 32, 16, 16);
    let mut traces = Vec::new();
    for tile in 0..4 {
        for row in 0..2 {
            let confidence = 0.1 * (tile + 1) as f32 + 0.01 * row as f32;
            traces.push(tile_trace(vec![point(0.25, 0.25, 0.5, confidence, 2)], 0.25 * tile as f32));
        }
    }
    let mut results = Vec::new();
    for size in [0, 1, 2, 3, 4, 9] {
        let mut run = TiledRun::begin(layout(), 2, 1, size);
        let mut runs = Vec::new();
        while let Some((start, count)) = run.next_run() {
            runs.push(count);
            run.put(&traces[start * 2..(start + count) * 2], count);
        }
        assert_eq!(runs.iter().sum::<usize>(), 4);
        assert!(runs.iter().all(|count| *count <= size.max(1)));
        results.push(run.finish_points());
    }
    for result in &results {
        assert_eq!(result, &results[0]);
    }
    // The surest fixation comes first, on its place in the frame.
    assert_eq!(results[0][0][0].len(), 4);
    assert_eq!(value(results[0][0][0][0].confidence), 0.4);
    assert_eq!(value(results[0][0][0][0].x), 0.625);
    assert_eq!(value(results[0][0][0][0].y), 0.625);
    assert_eq!(value(results[0][0][0][0].cell_width()), 0.25);
    assert_eq!(results[0][0][0][0].grid, 2);

    let mut run = TiledRun::begin(layout(), 2, 1, 4);
    run.put(&traces, 4);
    let stitched = run.finish_traces(1, 1);
    assert_eq!(stitched.len(), 2);
    assert_eq!(stitched[1].frames[0].points.len(), 4);
    assert_eq!(value(stitched[1].frames[0].points[0].confidence), 0.41);
    assert_eq!(value(stitched[1].frames[0].stop_probability), 0.75);
}

#[test]
fn sorting_keeps_the_order_of_equal_confidences() {
    let points = vec![
        point(0.1, 0.0, 0.5, 0.5, 2),
        point(0.2, 0.0, 0.5, 0.75, 2),
        point(0.3, 0.0, 0.5, 0.5, 2),
        point(0.4, 0.0, 0.5, 0.75, 2),
    ];
    let xs: Vec<f32> = sort_points_by_confidence(&points).iter().map(|p| value(p.x)).collect();
    assert_eq!(xs, vec![0.2, 0.4, 0.1, 0.3]);
    let frames = traces_to_frame_points(vec![tile_trace(points.clone(), 0.0)]);
    assert_eq!(frames, vec![vec![points]]);
}

#[test]
fn tile_cells_fill_the_frame_grid() {
    let layout = AutoGazeTileLayout::resized_grid(64, 96, 32);
    let mut cells = std::collections::HashSet::new();
    for tile in &layout.tiles {
        for row in 0..4 {
            for col in 0..4 {
                let local = point((col as f32 + 0.5) / 4.0, (row as f32 + 0.5) / 4.0, 0.25, 1.0, 4);
                let p = remap_tile_point(local, *tile, &layout).expect("cell");
                cells.insert(((value(p.x) * 12.0).floor() as i32, (value(p.y) * 8.0).floor() as i32));
            }
        }
    }
    assert_eq!(cells.len(), 12 * 8);
}

#[test]
fn load_options_are_strict_by_default() {
    assert_eq!(AutoGazeLoadOptions::default(), AutoGazeLoadOptions::strict());
    let options = AutoGazeLoadOptions::permissive().with_validate(true).with_allow_partial(false);
    assert_eq!(options, AutoGazeLoadOptions::strict());
}

#[test]
fn default_budget_follows_the_gazing_ratio() {
    assert_eq!(default_max_gaze_tokens_each_frame(Some(single(0.25)), 265, 10), 66);
    assert_eq!(default_max_gaze_tokens_each_frame(Some(single(7.0)), 265, 10), 265);
    assert_eq!(default_max_gaze_tokens_each_frame(Some(single(0.0)), 265, 10), 1);
    assert_eq!(default_max_gaze_tokens_each_frame(Some(single(f32::NAN)), 265, 10), 1);
    assert_eq!(default_max_gaze_tokens_each_frame(None, 265, 10), 10);
    assert_eq!(default_max_gaze_tokens_each_frame(None, 265, 0), 1);
}

#[test]
fn fixations_and_traces_compare_by_their_parts() {
    let point = |x: f32| FixationPoint::new(single(x), single(0.5), single(0.25), single(1.0));
    let trace = |x: f32, stop: f32| tile_trace(vec![point(x)], stop);
    assert_eq!(trace(0.25, 1.0), trace(0.25, 1.0));
    assert_ne!(trace(0.25, 1.0), trace(0.5, 1.0));
    assert_ne!(trace(0.25, 1.0), trace(0.25, 0.0));
    assert_eq!(trace(0.25, 1.0).frames[0], trace(0.25, 1.0).frames[0]);
    let mask = AutoGazeScaleTokenMask { grid: 1, token_count: 1, frames: vec![vec![true]] };
    assert_eq!(mask.clone(), mask);
    assert_ne!(AutoGazeScaleTokenMask { frames: vec![vec![false]], ..mask.clone() }, mask);
}
