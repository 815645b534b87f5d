use burn_autogaze::{
    default_max_gaze_tokens_each_frame, llama3_inv_freq, per_tile_trace_k, plan_inference,
    rope_exponents, tiled_frame_budget, AutoGazeInferenceMode, AutoGazeTileLayout, Binary32,
    FixationPoint, FixationSet, FrameFixationTrace, RopeScaling, TiledRun,
};

fn single(x: f32) -> Binary32 {
    Binary32::from_bits(x.to_bits())
}

fn value(b: Binary32) -> f32 {
    f32::from_bits(b.to_bits())
}

#[test]
fn high_resolution_frames_have_the_budget_of_all_tiles() {
    let budget = default_max_gaze_tokens_each_frame(Some(single(0.75)), 265, 10);
    assert_eq!(budget, 198);
    let layout = AutoGazeTileLayout::resized_grid(1080, 1920, 224);
    assert_eq!(layout.tiles.len(), 45);
    assert_eq!(tiled_frame_budget(budget, 10, layout.tiles.len()), 8910);
    assert_eq!(tiled_frame_budget(0, 0, 0), 1);
    assert_eq!(tiled_frame_budget(4, 9, 3), 27);
    assert_eq!(tiled_frame_budget(usize::MAX, 1, 2), usize::MAX);
    assert_eq!(per_tile_trace_k(198, 10), 198);
}

#[test]
fn inference_plans_follow_the_mode() {
    let plan = plan_inference(AutoGazeInferenceMode::ResizeToModelInput, 720, 1280);
    assert_eq!((plan.tiled, plan.resize, plan.dense), (false, false, false));
    assert_eq!(plan.layout, AutoGazeTileLayout::full_frame(720, 1280));

    let grid = AutoGazeInferenceMode::TiledResizeToGrid { tile_size: 224 };
    let plan = plan_inference(grid, 1080, 1920);
    assert_eq!((plan.tiled, plan.resize, plan.dense), (true, true, true));
    assert_eq!((plan.layout.source_height, plan.layout.source_width), (1120, 2016));
    let plan = plan_inference(grid, 448, 672);
    assert_eq!((plan.tiled, plan.resize, plan.dense), (true, false, true));
    assert_eq!(plan.layout.tiles.len(), 6);

    let tiled = AutoGazeInferenceMode::TiledFullResolution { tile_size: 224, stride: 112 };
    let plan = plan_inference(tiled, 448, 448);
    assert_eq!((plan.tiled, plan.resize, plan.dense), (true, false, false));
    assert_eq!(plan.layout, AutoGazeTileLayout::tiled(448, 448, 224, 112));
}

#[test]
fn stitched_traces_keep_every_token_of_every_tile() {
    let layout = AutoGazeTileLayout::resized_grid(64, 64, 32);
    let points: Vec<FixationPoint> = (0..3)
        .map(|i| {
            FixationPoint::with_grid_extent(
                single(0.25 + 0.5 * (i % 2) as f32),
                single(0.25 + 0.5 * (i / 2) as f32),
                single(0.5),
                single(0.5),
                single(0.5 + 0.125 * i as f32),
                2,
            )
        })
        .collect();
    let traces: Vec<FrameFixationTrace> = (0..layout.tiles.len())
        .map(|_| {
            FrameFixationTrace::new(vec![FixationSet::new(points.clone(), single(0.0), 3)])
        })
        .collect();
    let count = layout.tiles.len();
    let mut run = TiledRun::begin(layout, 1, 1, count);
    run.put(&traces, count);
    let stitched = run.finish_traces(3, 1);
    let frame = &stitched[0].frames[0];
    assert_eq!(frame.points.len(), 12);
    assert!(frame.points.iter().all(|point| value(point.confidence) > 0.0));
    for i in 0..3 {
        let confidence = 0.5 + 0.125 * i as f32;
        let found = frame.points.iter().filter(|p| value(p.confidence) == confidence).count();
        assert_eq!(found, 4);
    }
}

/// The frequencies, computed with the machine's own numbers.
fn plain_frequencies(powers: &[f32], scaling: Option<[f32; 4]>) -> Vec<f32> {
    powers
        .iter()
        .map(|power| {
            let frequency = 1.0 / power;
            let [factor, low, high, positions] = match scaling {
                Some(numbers) => numbers,
                None => return frequency,
            };
            let slow = positions / low.max(1.0);
            let fast = positions / high.max(low + 1.0e-6);
            let wavelength = 2.0 * std::f32::consts::PI / frequency.max(1.0e-12);
            if wavelength > slow {
                frequency / factor.max(1.0)
            } else if wavelength >= fast {
                let blend = (positions / wavelength - low) / (high - low).max(1.0e-6);
                (1.0 - blend) * frequency / factor.max(1.0) + blend * frequency
            } else {
                frequency
            }
        })
        .collect()
}

#[test]
fn rotary_frequencies_are_slowed_by_wavelength() {
    let exponents: Vec<f32> = rope_exponents(8).into_iter().map(value).collect();
    assert_eq!(exponents, vec![0.0, 0.25, 0.5, 0.75]);
    assert_eq!(rope_exponents(0).len(), 1);
    assert_eq!(rope_exponents(1).len(), 1);
    assert_eq!(rope_exponents(7).len(), 3);

    let powers: Vec<f32> =
        rope_exponents(64).into_iter().map(|e| 500000.0f32.powf(value(e))).collect();
    let given: Vec<Binary32> = powers.iter().map(|power| single(*power)).collect();
    for scaling in [
        None,
        Some([8.0, 1.0, 4.0, 8192.0]),
        Some([32.0, 1.0, 4.0, 2048.0]),
        Some([0.5, 0.25, 0.25, 100.0]),
    ] {
        let held = scaling.map(|[factor, low, high, positions]| RopeScaling {
            factor: single(factor),
            low_freq_factor: single(low),
            high_freq_factor: single(high),
            original_max_position_embeddings: single(positions),
        });
        let found: Vec<f32> = llama3_inv_freq(&given, held).into_iter().map(value).collect();
        assert_eq!(found, plain_frequencies(&powers, scaling));
    }

    // Fast pairs are left, slow ones divided by the factor.
    let scaling = RopeScaling {
        factor: single(8.0),
        low_freq_factor: single(1.0),
        high_freq_factor: single(4.0),
        original_max_position_embeddings: single(64.0),
    };
    assert_eq!(value(scaling.scaled_frequency(single(1.0))), 1.0);
    assert_eq!(value(scaling.scaled_frequency(single(0.0625))), 0.0078125);
}
