use burn_autogaze::{
    attention_mask_tensor_or_none, commit_pending_position_ids,
    commit_pending_position_ids_with_offsets, device_finished_after_selection_block,
    device_greedy_chunk_from_packed_data, device_select_multi_tokens, disallowed_token_mask,
    effective_generation_max_tokens, generated_to_traces, generation_tail_positions,
    greedy_select_multi_tokens, greedy_select_multi_tokens_from_data,
    greedy_select_multi_tokens_from_packed_data, next_valid_position_with_offset,
    pack_device_greedy_chunk,
    position_ids_slice_tensor, position_ids_slice_tensor_optimized, scale_token_layouts,
    square_grid,
    token_to_fixation_point, AutoGazeConfig, AutoGazeGenerateOutput, AutoGazeScaleTokenLayout,
    Binary32, Binary64, DeviceGreedySelectionConfig, DeviceGreedySelectionState,
    GenerationCoverageTracker, GreedySelectionContext, TaskLossStop,
};

fn single(x: f32) -> Binary32 {
    Binary32::from_bits(x.to_bits())
}

fn singles(xs: &[f32]) -> Vec<Binary32> {
    xs.iter().map(|x| single(*x)).collect()
}

fn value(b: Binary32) -> f32 {
    f32::from_bits(b.to_bits())
}

fn double(x: f64) -> Binary64 {
    Binary64::from_bits(x.to_bits())
}

fn weights(scores: &[f32]) -> Vec<Binary32> {
    scores.iter().map(|x| single(x.exp())).collect()
}

fn four_scales() -> AutoGazeConfig {
    let mut config = AutoGazeConfig {
        scales: vec![32, 64, 112, 224],
        num_vision_tokens_each_frame: 265,
        ..AutoGazeConfig::default()
    };
    config.gaze_model_config.num_vision_tokens_each_frame = 265;
    config
}

#[test]
fn token_to_fixation_point_preserves_multiscale_cells() {
    let config = four_scales();
    let scale_layouts = scale_token_layouts(&config);
    assert_eq!(
        scale_layouts,
        vec![
            AutoGazeScaleTokenLayout { token_count: 4, grid: 2 },
            AutoGazeScaleTokenLayout { token_count: 16, grid: 4 },
            AutoGazeScaleTokenLayout { token_count: 49, grid: 7 },
            AutoGazeScaleTokenLayout { token_count: 196, grid: 14 },
        ]
    );

    let coarse = token_to_fixation_point(0, &scale_layouts, single(1.0)).expect("coarse token");
    assert_eq!(value(coarse.x), 0.25);
    assert_eq!(value(coarse.y), 0.25);
    assert_eq!(value(coarse.cell_width()), 0.5);
    assert_eq!(value(coarse.cell_height()), 0.5);
    assert_eq!(coarse.cell_grid(), Some(2));

    let mid = token_to_fixation_point(4, &scale_layouts, single(1.0)).expect("second-scale token");
    assert_eq!(value(mid.x), 0.125);
    assert_eq!(value(mid.y), 0.125);
    assert_eq!(value(mid.cell_width()), 0.25);
    assert_eq!(value(mid.cell_height()), 0.25);
    assert_eq!(mid.cell_grid(), Some(4));

    let fine_offset = scale_layouts[..3]
        .iter()
        .map(|layout| layout.token_count)
        .sum::<usize>();
    let fine = token_to_fixation_point(fine_offset + 13, &scale_layouts, single(1.0))
        .expect("fine token");
    assert!((value(fine.x) - 13.5 / 14.0).abs() < 1.0e-6);
    assert!((value(fine.y) - 0.5 / 14.0).abs() < 1.0e-6);
    assert!((value(fine.cell_width()) - 1.0 / 14.0).abs() < 1.0e-6);
    assert!((value(fine.cell_height()) - 1.0 / 14.0).abs() < 1.0e-6);
    assert_eq!(fine.cell_grid(), Some(14));
}

#[test]
fn generation_coverage_tracker_stops_after_redundant_full_frame_cells() {
    let config = AutoGazeConfig {
        scales: vec![32, 64, 112, 224],
        num_vision_tokens_each_frame: 265,
        ..AutoGazeConfig::default()
    };
    let layouts = scale_token_layouts(&config);
    let mut tracker =
        GenerationCoverageTracker::new(&layouts, double(1.0)).expect("coverage tracker");

    assert!(!tracker.observe_token(0));
    assert!(!tracker.observe_token(1));
    assert!(!tracker.observe_token(2));
    assert!(
        tracker.observe_token(3),
        "the four 2x2 coarse tokens cover the full normalized frame"
    );
    let covered_after_full_frame = tracker.covered_count;
    assert!(tracker.observe_token(4));
    assert_eq!(
        tracker.covered_count, covered_after_full_frame,
        "finer tokens inside already-covered coarse cells should not add work"
    );
}

#[test]
fn coverage_stop_bounds_effective_generation_budget_to_finest_grid_need() {
    let config = AutoGazeConfig {
        scales: vec![32, 64, 112, 224],
        num_vision_tokens_each_frame: 265,
        ..AutoGazeConfig::default()
    };
    let layouts = scale_token_layouts(&config);

    assert_eq!(
        effective_generation_max_tokens(198, Some(double(0.45)), &layouts, 10),
        90,
        "45% coverage cannot require more than ninety 14x14 fine cells, rounded to the ten-token decoder chunk"
    );
    assert_eq!(
        effective_generation_max_tokens(198, None, &layouts, 10),
        198
    );
    assert_eq!(
        effective_generation_max_tokens(24, Some(double(0.45)), &layouts, 10),
        24,
        "explicit user caps stay authoritative"
    );
}

#[test]
fn generation_tail_positions_repeat_prefix_tail_for_generated_chunks() {
    let mut position_rows = vec![vec![0, 1, 1, 2, 3]];
    let tail = generation_tail_positions(&position_rows, 2);
    position_rows[0].extend([tail[0][0], tail[0][1], tail[0][0]]);
    let position_ids = position_ids_slice_tensor(&position_rows, 0, 8);

    assert_eq!(position_ids, vec![0, 1, 1, 2, 3, 2, 3, 2]);
}

#[test]
fn optimized_position_ids_preserve_contiguous_and_shared_rows() {
    let contiguous = vec![vec![4, 5, 6], vec![4, 5, 6]];
    let values = position_ids_slice_tensor_optimized(&contiguous, 0, 3).expand(2);
    assert_eq!(values, vec![4, 5, 6, 4, 5, 6]);

    let shared_non_contiguous = vec![vec![8, 13, 8], vec![8, 13, 8]];
    let values = position_ids_slice_tensor_optimized(&shared_non_contiguous, 0, 3).expand(2);
    assert_eq!(values, vec![8, 13, 8, 8, 13, 8]);

    let per_batch = vec![vec![8, 13, 8], vec![9, 14, 9]];
    let values = position_ids_slice_tensor_optimized(&per_batch, 0, 3).expand(2);
    assert_eq!(values, vec![8, 13, 8, 9, 14, 9]);
}

#[test]
fn attention_mask_upload_is_skipped_when_all_keys_are_valid() {
    assert!(attention_mask_tensor_or_none(&[vec![1, 1, 1]], 3).is_none());
    assert!(attention_mask_tensor_or_none(&[vec![1, 0, 1]], 3).is_some());
}

#[test]
fn commit_pending_position_ids_uses_attention_cumsum() {
    let masks = vec![vec![1, 1, 0, 1, 1, 0, 1]];
    let mut positions = vec![vec![0, 1, 1, 2, 2, 2, 2]];
    let pending = vec![vec![4, 5, 6]];

    commit_pending_position_ids(&masks, &mut positions, &pending);

    assert_eq!(positions[0], vec![0, 1, 1, 2, 3, 3, 4]);
}

#[test]
fn streaming_position_commit_preserves_rolling_cache_offsets() {
    let masks = vec![vec![1, 1, 1, 1, 0]];
    let mut positions = vec![vec![42, 43, 44, 44, 44]];
    let pending = vec![vec![3, 4]];
    let offsets = vec![42];

    commit_pending_position_ids_with_offsets(&masks, &mut positions, &pending, &offsets);

    assert_eq!(positions[0], vec![42, 43, 44, 45, 45]);
    assert_eq!(next_valid_position_with_offset(&masks[0], offsets[0]), 46);
}

fn requirement_on_first_token() -> TaskLossStop {
    TaskLossStop {
        requirement: Some(single(0.5)),
        is_first_token: true,
    }
}

/// One row: the scores of all steps, then their predicted losses.
fn packed(scores: &[f32], losses: &[f32], vocab: usize) -> Vec<f32> {
    let mut values = Vec::new();
    values.extend_from_slice(scores);
    values.extend_from_slice(losses);
    assert_eq!(scores.len(), losses.len() * vocab);
    values
}

#[test]
fn greedy_selection_applies_task_loss_requirement_after_first_token() {
    let scores = vec![
        10.0, 1.0, 0.0, -1.0, //
        0.0, 9.0, 1.0, -1.0,
    ];
    let task_losses = vec![0.1, 0.2];
    let prior = [Vec::new()];
    let context = GreedySelectionContext {
        prior_tokens: &prior,
        finished: &[false],
        eos_token_id: 3,
        max_tokens: 2,
        task_loss_stop: requirement_on_first_token(),
    };
    let values = packed(&scores, &task_losses, 4);
    let selected = greedy_select_multi_tokens(
        &singles(&values),
        &weights(&values),
        1,
        2,
        4,
        context,
    );

    assert_eq!(selected.tokens, vec![vec![0, 3]]);
    assert_eq!(selected.valid, vec![vec![true, false]]);
    assert!(value(selected.confidences[0][0]) > 0.0);
    assert_eq!(value(selected.confidences[0][1]), 0.0);

    let reference = greedy_select_multi_tokens_from_data(
        &singles(&scores),
        &weights(&scores),
        &singles(&task_losses),
        1,
        2,
        4,
        context,
    );
    assert_eq!(
        (selected.tokens, selected.valid),
        (reference.tokens, reference.valid)
    );
    for (left, right) in selected.confidences[0].iter().zip(&reference.confidences[0]) {
        assert!((value(*left) - value(*right)).abs() < 1.0e-6);
    }
}

#[test]
fn greedy_selection_continues_multi_token_block_after_task_loss_stop() {
    let scores = vec![
        8.0, 1.0, 0.0, -1.0, -2.0, //
        0.0, 9.0, 2.0, 1.0, -2.0, //
        0.0, 9.0, 8.0, 1.0, -2.0,
    ];
    let task_losses = vec![1.0, 0.1, 1.0];
    let prior = [Vec::new()];
    let context = GreedySelectionContext {
        prior_tokens: &prior,
        finished: &[false],
        eos_token_id: 4,
        max_tokens: 3,
        task_loss_stop: requirement_on_first_token(),
    };
    let values = packed(&scores, &task_losses, 5);
    let selected = greedy_select_multi_tokens(
        &singles(&values),
        &weights(&values),
        1,
        3,
        5,
        context,
    );
    let reference = greedy_select_multi_tokens_from_data(
        &singles(&scores),
        &weights(&scores),
        &singles(&task_losses),
        1,
        3,
        5,
        context,
    );

    assert_eq!(selected.tokens, vec![vec![0, 4, 2]]);
    assert_eq!(selected.valid, vec![vec![true, false, true]]);
    assert_eq!(selected.tokens, reference.tokens);
    assert_eq!(selected.valid, reference.valid);
}

#[test]
fn device_greedy_selection_matches_host_selection_for_one_step() {
    let scores = vec![
        8.0, 1.0, 0.0, -1.0, -2.0, //
        0.0, 9.0, 2.0, 1.0, -2.0, //
        0.0, 9.0, 8.0, 1.0, -2.0,
    ];
    let task_losses = vec![1.0, 0.1, 1.0];
    let prior = [Vec::new()];
    let context = GreedySelectionContext {
        prior_tokens: &prior,
        finished: &[false],
        eos_token_id: 4,
        max_tokens: 3,
        task_loss_stop: requirement_on_first_token(),
    };
    let reference = greedy_select_multi_tokens_from_data(
        &singles(&scores),
        &weights(&scores),
        &singles(&task_losses),
        1,
        3,
        5,
        context,
    );

    let selected = device_select_multi_tokens(
        &singles(&scores),
        &singles(&task_losses),
        1,
        3,
        5,
        &DeviceGreedySelectionState {
            disallowed: disallowed_token_mask(context.prior_tokens, context.eos_token_id, 5),
            finished: context.finished.to_vec(),
            current_len: 0,
        },
        DeviceGreedySelectionConfig {
            eos_token_id: context.eos_token_id,
            max_tokens: context.max_tokens,
            task_loss_stop: context.task_loss_stop,
        },
    );
    let packed = pack_device_greedy_chunk(&[selected.tokens], &[selected.valid], 1, 3);
    assert_eq!(packed, singles(&[0.0, 4.0, 2.0, 1.0, 0.0, 1.0]));
    let actual = device_greedy_chunk_from_packed_data(&packed, 1, 3).expect("device greedy chunk");

    assert_eq!(actual.tokens, reference.tokens);
    assert_eq!(actual.valid, reference.valid);
    for (confidence, valid) in actual.confidences[0].iter().zip(&actual.valid[0]) {
        if *valid {
            assert_eq!(value(*confidence), 1.0);
        } else {
            assert_eq!(value(*confidence), 0.0);
        }
    }
}

#[test]
fn device_selection_keeps_its_flags_in_step() {
    let config = DeviceGreedySelectionConfig {
        eos_token_id: 3,
        max_tokens: 3,
        task_loss_stop: TaskLossStop {
            requirement: None,
            is_first_token: true,
        },
    };
    // The first row takes its two best tokens; the second is finished already.
    let logits = singles(&[
        1.0, 5.0, 2.0, 9.0, 1.0, 5.0, 2.0, 9.0, //
        4.0, 3.0, 2.0, 1.0, 4.0, 3.0, 2.0, 1.0,
    ]);
    let losses = singles(&[0.0, 0.0, 0.0, 0.0]);
    let first = device_select_multi_tokens(
        &logits,
        &losses,
        2,
        2,
        4,
        &DeviceGreedySelectionState {
            disallowed: disallowed_token_mask(&[Vec::new(), Vec::new()], 3, 4),
            finished: vec![false, true],
            current_len: 0,
        },
        config,
    );
    assert_eq!(first.tokens, vec![vec![1, 2], vec![3, 3]]);
    assert_eq!(first.valid, vec![vec![true, true], vec![false, false]]);
    assert_eq!(first.finished, vec![false, true]);
    assert_eq!(
        first.disallowed,
        disallowed_token_mask(&[vec![1, 2], Vec::new()], 3, 4)
    );
    let finished = device_finished_after_selection_block(&first.finished, &first.valid);
    assert_eq!(finished, vec![false, true]);

    // The next block has room for one more token.
    let second = device_select_multi_tokens(
        &logits,
        &losses,
        2,
        2,
        4,
        &DeviceGreedySelectionState {
            disallowed: first.disallowed,
            finished,
            current_len: 2,
        },
        config,
    );
    assert_eq!(second.tokens, vec![vec![0, 3], vec![3, 3]]);
    assert_eq!(second.valid, vec![vec![true, false], vec![false, false]]);
    assert_eq!(second.finished, vec![false, true]);
    assert_eq!(
        device_finished_after_selection_block(&second.finished, &second.valid),
        vec![true, true]
    );

    // With every token taken a row is finished.
    let third = device_select_multi_tokens(
        &logits,
        &losses,
        2,
        2,
        4,
        &DeviceGreedySelectionState {
            disallowed: second.disallowed,
            finished: vec![false, false],
            current_len: 0,
        },
        config,
    );
    assert_eq!(third.tokens, vec![vec![3, 3], vec![0, 1]]);
    assert_eq!(third.finished, vec![true, false]);
}

#[test]
fn packed_chunk_reads_back() {
    let tokens = [vec![vec![7, -3], vec![0, 265]], vec![vec![16777215], vec![-1]]];
    let valid = [vec![vec![true, false], vec![true, true]], vec![vec![false], vec![true]]];
    let packed = pack_device_greedy_chunk(&tokens, &valid, 2, 3);
    assert_eq!(
        packed,
        singles(&[
            7.0, -3.0, 16777215.0, 1.0, 0.0, 0.0, //
            0.0, 265.0, -1.0, 1.0, 1.0, 1.0,
        ])
    );
    let read = device_greedy_chunk_from_packed_data(&packed, 2, 3).expect("chunk");
    assert_eq!(read.tokens, vec![vec![7, -3, 16777215], vec![0, 265, -1]]);
    assert_eq!(read.valid, vec![vec![true, false, false], vec![true, true, true]]);
}

#[test]
fn greedy_selection_rejects_malformed_packed_data() {
    let prior = [Vec::new()];
    let context = GreedySelectionContext {
        prior_tokens: &prior,
        finished: &[false],
        eos_token_id: 3,
        max_tokens: 1,
        task_loss_stop: TaskLossStop {
            requirement: None,
            is_first_token: true,
        },
    };
    let truncated = [0.0, 1.0, 0.5];
    assert!(greedy_select_multi_tokens_from_packed_data(
        &singles(&truncated),
        &weights(&truncated),
        1,
        1,
        3,
        context,
    )
    .is_none());

    let complete = [0.0, 1.0, 0.5, 0.25];
    assert!(greedy_select_multi_tokens_from_packed_data(
        &singles(&complete),
        &weights(&complete),
        1,
        1,
        3,
        context,
    )
    .is_some());
}

#[test]
fn scale_layout_falls_back_to_proportional_counts_for_mismatched_totals() {
    let mut config = AutoGazeConfig {
        scales: vec![32, 64, 224],
        num_vision_tokens_each_frame: 10,
        ..AutoGazeConfig::default()
    };
    config.gaze_model_config.vision_model_config.kernel_size = 16;

    let layouts = scale_token_layouts(&config);
    assert_eq!(
        layouts
            .iter()
            .map(|layout| layout.token_count)
            .sum::<usize>(),
        10
    );
    assert_eq!(
        layouts.iter().map(|layout| layout.grid).collect::<Vec<_>>(),
        vec![1, 1, 3]
    );
}

#[test]
fn generated_to_traces_preserves_all_non_padded_multiscale_tokens() {
    let config = four_scales();
    let generated = AutoGazeGenerateOutput {
        gazing_pos: vec![vec![0, 4, 20, 69]],
        num_gazing_each_frame: vec![4],
        if_padded_gazing: vec![vec![false, false, false, false]],
        confidences: vec![singles(&[0.9, 0.8, 0.7, 0.6])],
    };

    let traces = generated_to_traces(&generated, &config, 4);

    let grids = traces[0].frames[0]
        .points
        .iter()
        .filter(|point| value(point.confidence) > 0.0)
        .map(|point| point.cell_grid())
        .collect::<Vec<_>>();
    assert_eq!(grids, vec![Some(2), Some(4), Some(7), Some(14)]);

    let traces = generated_to_traces(&generated, &config, 1);
    let grids = traces[0].frames[0]
        .points
        .iter()
        .filter(|point| value(point.confidence) > 0.0)
        .map(|point| point.cell_grid())
        .collect::<Vec<_>>();
    assert_eq!(
        grids,
        vec![Some(2), Some(4), Some(7), Some(14)],
        "generated output conversion must preserve all real tokens even when the display lower-bound is smaller"
    );
}

#[test]
fn generated_scale_token_masks_match_upstream_per_scale_layout() {
    let config = four_scales();
    let generated = AutoGazeGenerateOutput {
        gazing_pos: vec![vec![0, 4, 20, 69, 1 + 265, 5 + 265]],
        num_gazing_each_frame: vec![4, 2],
        if_padded_gazing: vec![vec![false, false, false, false, false, true]],
        confidences: vec![singles(&[0.9, 0.8, 0.7, 0.6, 0.5, 0.0])],
    };

    let masks = generated.scale_token_masks(&config);

    assert_eq!(masks.len(), 1);
    assert_eq!(
        masks[0]
            .iter()
            .map(|mask| (mask.grid, mask.token_count))
            .collect::<Vec<_>>(),
        vec![(2, 4), (4, 16), (7, 49), (14, 196)]
    );
    assert!(masks[0][0].frames[0][0]);
    assert!(masks[0][1].frames[0][0]);
    assert!(masks[0][2].frames[0][0]);
    assert!(masks[0][3].frames[0][0]);
    assert!(masks[0][0].frames[1][1]);
    assert!(
        !masks[0][1].frames[1][1],
        "padded gaze tokens must not set scale masks"
    );
}

#[test]
fn separate_scores_give_the_share_as_it_comes_out() {
    // The exponential of 100 is infinite, so its share of the sum is undefined.
    let scores = [100.0, 0.0, -1.0];
    let prior = [Vec::new()];
    let context = GreedySelectionContext {
        prior_tokens: &prior,
        finished: &[],
        eos_token_id: 2,
        max_tokens: 1,
        task_loss_stop: TaskLossStop { requirement: None, is_first_token: true },
    };
    let separate = greedy_select_multi_tokens_from_data(
        &singles(&scores),
        &weights(&scores),
        &[],
        1,
        1,
        3,
        context,
    );
    assert_eq!(separate.tokens, vec![vec![0]]);
    assert_eq!(separate.valid, vec![vec![true]]);
    assert!(value(separate.confidences[0][0]).is_nan());

    let values = packed(&scores, &[1.0], 3);
    let joined = greedy_select_multi_tokens_from_packed_data(
        &singles(&values),
        &weights(&values),
        1,
        1,
        3,
        context,
    )
    .expect("enough values");
    assert_eq!(joined.tokens, separate.tokens);
    assert_eq!(value(joined.confidences[0][0]), 1.0);

    // The exponential of -200 is zero, so the sum is zero too.
    let scores = [-200.0, -201.0, 5.0];
    let separate = greedy_select_multi_tokens_from_data(
        &singles(&scores),
        &weights(&scores),
        &[],
        1,
        1,
        3,
        context,
    );
    assert_eq!(separate.tokens, vec![vec![0]]);
    assert_eq!(value(separate.confidences[0][0]), 1.0);

    // A weight of zero beside a positive sum has a share of zero.
    let separate = greedy_select_multi_tokens_from_data(
        &singles(&[1.0, 0.0, 5.0]),
        &singles(&[0.0, 1.0, 1.0]),
        &[],
        1,
        1,
        3,
        context,
    );
    assert_eq!(separate.tokens, vec![vec![0]]);
    assert_eq!(separate.confidences, vec![vec![single(0.0)]]);
}

#[test]
fn separate_scores_may_be_followed_by_others() {
    let scores = [1.0, 3.0, 2.0, 0.5, 4.0, 9.0, 9.0];
    let prior = [Vec::new(), Vec::new()];
    let context = |stop: TaskLossStop| GreedySelectionContext {
        prior_tokens: &prior,
        finished: &[],
        eos_token_id: 7,
        max_tokens: 2,
        task_loss_stop: stop,
    };
    let select = |scores: &[f32], losses: &[f32], stop: TaskLossStop| {
        greedy_select_multi_tokens_from_data(
            &singles(scores),
            &weights(scores),
            &singles(losses),
            2,
            1,
            2,
            context(stop),
        )
    };
    let free = TaskLossStop { requirement: None, is_first_token: false };
    let bound = TaskLossStop { requirement: Some(single(0.5)), is_first_token: false };
    let exact = select(&scores[..4], &[1.0, 1.0], free);
    assert_eq!(exact.tokens, vec![vec![1], vec![0]]);
    for longer in [
        select(&scores, &[], free),
        select(&scores, &[1.0, 1.0, 0.0, 0.0], bound),
    ] {
        assert_eq!(longer.tokens, exact.tokens);
        assert_eq!(longer.valid, exact.valid);
        assert_eq!(longer.confidences, exact.confidences);
    }
    let stopped = select(&scores, &[1.0, 0.25, 0.0], bound);
    assert_eq!(stopped.tokens, vec![vec![1], vec![7]]);
    assert_eq!(stopped.valid, vec![vec![true], vec![false]]);
}

#[test]
fn device_selection_needs_only_the_best_score_to_count() {
    let prior = [Vec::new()];
    let select = |scores: &[f32]| {
        let context = GreedySelectionContext {
            prior_tokens: &prior,
            finished: &[false],
            eos_token_id: 4,
            max_tokens: 2,
            task_loss_stop: TaskLossStop { requirement: None, is_first_token: true },
        };
        let values = packed(scores, &[1.0, 1.0], 5);
        let host =
            greedy_select_multi_tokens(&singles(&values), &weights(&values), 1, 2, 5, context);
        let device = device_select_multi_tokens(
            &singles(scores),
            &singles(&[1.0, 1.0]),
            1,
            2,
            5,
            &DeviceGreedySelectionState {
                disallowed: disallowed_token_mask(&prior, 4, 5),
                finished: vec![false],
                current_len: 0,
            },
            DeviceGreedySelectionConfig {
                eos_token_id: 4,
                max_tokens: 2,
                task_loss_stop: context.task_loss_stop,
            },
        );
        ((host.tokens, host.valid), (device.tokens, device.valid))
    };
    let low = f32::NEG_INFINITY;
    // The scores below the best are infinitely low or far below what counts; the end token may
    // have any score.
    let (host, device) = select(&[
        low, -3.0e30, 0.5, -1.0e29, f32::NAN, //
        -2.0e29, low, 7.0, -1.0, f32::INFINITY,
    ]);
    assert_eq!(host, (vec![vec![2, 3]], vec![vec![true, true]]));
    assert_eq!(device, host);
    // An infinitely high score is skipped on the host and taken on the device.
    let (host, device) = select(&[
        1.0, f32::INFINITY, 0.0, 0.0, 0.0, //
        5.0, 0.0, 4.0, 0.0, 0.0,
    ]);
    assert_eq!(host.0, vec![vec![0, 2]]);
    assert_eq!(device.0, vec![vec![1, 0]]);
    // A best score that does not count ends the row on the device only.
    let (host, device) = select(&[
        -2.0e29, low, low, low, 0.0, //
        5.0, 6.0, 4.0, 0.0, 0.0,
    ]);
    assert_eq!(host.0, vec![vec![0, 1]]);
    assert_eq!(device, (vec![vec![4, 4]], vec![vec![false, false]]));
}

#[test]
fn square_grid_is_the_rounded_root_of_the_count() {
    let rounded = |n: usize| (n.max(1) as f64).sqrt().round().max(1.0) as usize;
    assert_eq!(square_grid((1 << 54) + (1 << 27)), (1 << 27) + 1);
    for n in 0..5000 {
        assert_eq!(square_grid(n), rounded(n));
    }
    for side in [1usize << 20, (1 << 26) - 1, 1 << 26, (1 << 27) + 5, (1 << 31) - 1, (1 << 32) - 2] {
        let square = side * side;
        for n in [
            square - 1,
            square,
            square + 1,
            square + side - 1,
            square + side,
            square + side + 1,
        ] {
            assert_eq!(square_grid(n), rounded(n));
        }
    }
    for shift in 0..64 {
        let n = usize::MAX >> shift;
        assert_eq!(square_grid(n), rounded(n));
        assert_eq!(square_grid(n / 3 * 2), rounded(n / 3 * 2));
    }
    assert_eq!(square_grid(usize::MAX), 1 << 32);
}
