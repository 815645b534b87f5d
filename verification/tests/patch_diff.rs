use burn_autogaze::{
    check_patch_diff_mask, check_patch_diff_scores, patch_diff_points_from_scores,
    patch_diff_points_to_traces, patch_diff_readout_stats, plan_patch_diff,
    plan_patch_diff_mask, scalar_count_to_usize, summarize_patch_diff_mask,
    AutoGazePatchDiffConfig, AutoGazeReadoutStats, AutoGazeSparseMaskSource, Binary32, Binary64,
    PatchDiffMaskPlan, PatchDiffPlan,
};

fn single(x: f32) -> Binary32 {
    Binary32::from_bits(x.to_bits())
}

fn double(x: f64) -> Binary64 {
    Binary64::from_bits(x.to_bits())
}

fn value(b: Binary32) -> f32 {
    f32::from_bits(b.to_bits())
}

fn singles(xs: &[f32]) -> Vec<Binary32> {
    xs.iter().map(|x| single(*x)).collect()
}

/// The mean change of every patch between the two frames of a clip with three channels.
fn patch_averages(values: &[f32], side: usize, config: AutoGazePatchDiffConfig) -> Vec<Binary32> {
    let plan = plan_patch_diff(1, 2, 3, side, side, config).expect("plan");
    let PatchDiffPlan::Patches { height, width } = plan else {
        panic!("expected whole patches");
    };
    let frame = 3 * side * side;
    let mut scores = Vec::new();
    for row in 0..side / height {
        for col in 0..side / width {
            let mut sum = 0.0f32;
            for channel in 0..3 {
                for y in row * height..(row + 1) * height {
                    for x in col * width..(col + 1) * width {
                        let at = channel * side * side + y * side + x;
                        sum += (values[frame + at] - values[at]).abs();
                    }
                }
            }
            scores.push(single(sum / (3 * height * width) as f32));
        }
    }
    scores
}

fn changed_square(side: usize, xs: std::ops::Range<usize>, ys: std::ops::Range<usize>) -> Vec<f32> {
    let mut values = vec![0.0; 2 * 3 * side * side];
    for channel in 0..3 {
        for y in ys.clone() {
            for x in xs.clone() {
                values[3 * side * side + channel * side * side + y * side + x] = 1.0;
            }
        }
    }
    values
}

#[test]
fn patch_diff_selects_changed_patch_on_single_scale_grid() {
    let config = AutoGazePatchDiffConfig::new(2, single(0.25));
    let scores = patch_averages(&changed_square(28, 14..28, 14..28), 28, config);
    let output = patch_diff_points_from_scores(&scores, 1, 2, config).unwrap();
    let points = &output.points[0][output.frame_index];

    assert_eq!(points.len(), 1);
    assert_eq!(points[0].grid, 2);
    assert!((value(points[0].x) - 0.75).abs() < 1.0e-6);
    assert!((value(points[0].y) - 0.75).abs() < 1.0e-6);
    assert!((value(points[0].cell_width()) - 0.5).abs() < 1.0e-6);
    assert!((value(points[0].cell_height()) - 0.5).abs() < 1.0e-6);
    assert_eq!(output.stats.active_generated_tokens, 1);
}

#[test]
fn patch_diff_handles_fourteen_by_fourteen_grid_geometry() {
    let config = AutoGazePatchDiffConfig::new(14, single(0.25));
    let scores = patch_averages(&changed_square(28, 8..10, 10..12), 28, config);
    let output = patch_diff_points_from_scores(&scores, 1, 2, config).unwrap();
    let points = &output.points[0][output.frame_index];

    assert_eq!(points.len(), 1);
    assert_eq!(points[0].grid, 14);
    assert!((value(points[0].cell_width()) - (1.0 / 14.0)).abs() < 1.0e-6);
    assert!((value(points[0].cell_height()) - (1.0 / 14.0)).abs() < 1.0e-6);
}

#[test]
fn patches_are_planned_where_the_grid_divides_the_frame() {
    let config = AutoGazePatchDiffConfig::new(2, single(0.0));
    assert_eq!(
        plan_patch_diff(1, 2, 3, 4, 4, config).unwrap(),
        PatchDiffPlan::Patches { height: 2, width: 2 }
    );
    assert_eq!(plan_patch_diff(1, 2, 3, 4, 5, config).unwrap(), PatchDiffPlan::Resampled);
    assert_eq!(plan_patch_diff(1, 1, 3, 4, 4, config).unwrap(), PatchDiffPlan::Still);
    // A grid of zero counts as one cell.
    assert_eq!(
        plan_patch_diff(1, 2, 3, 4, 6, AutoGazePatchDiffConfig::new(0, single(0.0))).unwrap(),
        PatchDiffPlan::Patches { height: 4, width: 6 }
    );
}

#[test]
fn patch_diff_single_frame_clip_emits_no_points() {
    let config = AutoGazePatchDiffConfig::new(14, single(0.0));
    assert_eq!(plan_patch_diff(1, 1, 3, 28, 28, config).unwrap(), PatchDiffPlan::Still);
    let output =
        patch_diff_points_from_scores(&singles(&[0.0; 14 * 14]), 1, 1, config).unwrap();

    assert!(output.points[0][output.frame_index].is_empty());
    assert_eq!(output.stats.active_generated_tokens, 0);
}

#[test]
fn changes_come_largest_first_and_ties_by_patch() {
    let config = AutoGazePatchDiffConfig::new(2, single(0.5));
    let scores = singles(&[0.75, 2.0, 0.5, 0.75, f32::NAN, f32::INFINITY, 0.0, 0.625]);
    let output = patch_diff_points_from_scores(&scores, 2, 3, config).unwrap();
    assert_eq!(output.frame_index, 2);
    assert_eq!(output.model_frames, 3);
    assert!(output.points[0][0].is_empty() && output.points[0][1].is_empty());
    let xy: Vec<(f32, f32)> =
        output.points[0][2].iter().map(|p| (value(p.x), value(p.y))).collect();
    assert_eq!(xy, vec![(0.75, 0.25), (0.25, 0.25), (0.75, 0.75)]);
    let confidences: Vec<f32> =
        output.points[0][2].iter().map(|p| value(p.confidence)).collect();
    assert_eq!(confidences, vec![1.0, 1.0, 1.0]);
    // Values that are not finite are no changes.
    assert_eq!(output.points[1][2].len(), 1);
    assert_eq!(output.stats.generated_tokens, 4);
    assert_eq!(patch_diff_readout_stats(&output.points, 2), output.stats);
    assert_eq!(patch_diff_readout_stats(&output.points, 0).generated_tokens, 0);
}

#[test]
fn without_a_threshold_the_change_is_the_confidence() {
    let config = AutoGazePatchDiffConfig::new(1, single(0.0));
    let output = patch_diff_points_from_scores(&singles(&[0.375]), 1, 2, config).unwrap();
    assert_eq!(value(output.points[0][1][0].confidence), 0.375);
    let traces = patch_diff_points_to_traces(&output.points, 2);
    assert_eq!(traces[0].frames[1].points.len(), 2);
    assert_eq!(value(traces[0].frames[1].stop_probability), 1.0);
}

#[test]
fn patch_diff_errors_name_what_is_wrong() {
    let config = AutoGazePatchDiffConfig::new(2, single(0.0));
    let text = |shape: (usize, usize, usize, usize, usize)| {
        plan_patch_diff(shape.0, shape.1, shape.2, shape.3, shape.4, config)
            .err()
            .expect("error")
            .message()
    };
    assert_eq!(text((0, 2, 3, 4, 4)), "patch-diff video batch must be nonzero");
    assert_eq!(text((1, 0, 3, 4, 4)), "patch-diff video clip length must be nonzero");
    assert_eq!(text((1, 2, 0, 4, 4)), "patch-diff video channels must be nonzero");
    assert_eq!(text((1, 2, 3, 0, 4)), "patch-diff video spatial dimensions must be nonzero");
    assert_eq!(
        patch_diff_points_from_scores(&singles(&[0.0; 3]), 1, 2, config)
            .err()
            .expect("error")
            .message(),
        "patch-diff score tensor length must match batch and grid size"
    );
    assert_eq!(
        check_patch_diff_mask(0, 4).err().expect("error").message(),
        "patch-diff mask dimensions must be nonzero"
    );
    assert!(check_patch_diff_mask(4, 4).is_ok());
    assert_eq!(
        check_patch_diff_scores(2, 4, config).err().expect("error").message(),
        "patch-diff device mask currently supports one visualization batch"
    );
    assert_eq!(
        check_patch_diff_scores(1, 5, config).err().expect("error").message(),
        "patch-diff score grid must match patch-diff config"
    );
    assert!(check_patch_diff_scores(1, 4, config).is_ok());
}

#[test]
fn counted_cells_are_rounded_and_cut() {
    assert_eq!(scalar_count_to_usize(double(3.0), 4), 3);
    assert_eq!(scalar_count_to_usize(double(2.5), 4), 3);
    assert_eq!(scalar_count_to_usize(double(9.0), 4), 4);
    assert_eq!(scalar_count_to_usize(double(-1.0), 4), 0);
    assert_eq!(scalar_count_to_usize(double(f64::NAN), 4), 0);
    assert_eq!(scalar_count_to_usize(double(f64::INFINITY), 4), 0);
}

#[test]
fn mask_sources_know_whether_they_need_the_model() {
    assert!(AutoGazeSparseMaskSource::autogaze().requires_autogaze_model());
    assert!(!AutoGazeSparseMaskSource::default().is_patch_diff());
    let source = AutoGazeSparseMaskSource::patch_diff(3, single(0.5));
    assert!(source.is_patch_diff());
    assert!(!source.requires_autogaze_model());
    assert_eq!(AutoGazePatchDiffConfig::new(3, single(0.5)).token_budget(), 9);
}

#[test]
fn masks_are_drawn_from_whole_patches_where_they_fit() {
    let config = AutoGazePatchDiffConfig { grid_size: 4, ..AutoGazePatchDiffConfig::default() };
    assert_eq!(
        plan_patch_diff_mask(8, 12, config),
        PatchDiffMaskPlan::Repeated { height: 2, width: 3 }
    );
    assert_eq!(plan_patch_diff_mask(8, 13, config), PatchDiffMaskPlan::Nearest);
    let summary = summarize_patch_diff_mask(double(3.0), double(18.2), 2, 8, 12, config);
    assert_eq!((summary.active_cell_count, summary.pixel_count), (3, 18));
    assert_eq!((summary.frame_index, summary.model_frames), (1, 2));
    assert_eq!(
        summary.stats,
        AutoGazeReadoutStats {
            generated_tokens: 3,
            active_generated_tokens: 3,
            padded_generated_tokens: 0,
        }
    );
    let full = summarize_patch_diff_mask(double(99.0), double(f64::NAN), 0, 8, 12, config);
    assert_eq!((full.active_cell_count, full.pixel_count, full.frame_index), (16, 0, 0));
}
