use burn_autogaze::{
    default_blend_alpha, ema_metric, format_gaze_ratio_percent, format_psnr_db, fps_from_millis,
    sanitize_gaze_ratio,
    should_use_streaming_cache, AutoGazeEmaMetric, AutoGazeGazeRatioStats, AutoGazeInferenceMode,
    AutoGazeInferenceSequencer, AutoGazePsnrStats, AutoGazeRealtimePolicy, Binary64,
    DEFAULT_KEYFRAME_DURATION, DEFAULT_MAX_IN_FLIGHT, DEFAULT_METRIC_EMA_ALPHA_BITS,
    DEFAULT_MODEL_GENERATION_BUDGET, DEFAULT_REALTIME_FRAMES_PER_CLIP, DEFAULT_REALTIME_TOP_K,
    DEFAULT_TILED_FRAMES_PER_CLIP, DEFAULT_TILED_MAX_GAZE_TOKENS, DEFAULT_TILED_TILE_BATCH_SIZE,
    DEFAULT_TILED_TOP_K,
};

fn double(x: f64) -> Binary64 {
    Binary64::from_bits(x.to_bits())
}

fn value(b: Binary64) -> f64 {
    f64::from_bits(b.to_bits())
}

#[test]
fn inference_sequencer_rejects_stale_results() {
    let mut sequencer = AutoGazeInferenceSequencer::default();
    let first = sequencer.reserve();
    let second = sequencer.reserve();

    assert_eq!(first, 1);
    assert_eq!(second, 2);
    assert!(sequencer.accept(second));
    assert!(!sequencer.accept(first));
    assert!(sequencer.is_stale(second));
    assert!(sequencer.accept(second + 1));
}

#[test]
fn realtime_policy_caps_in_flight_work_and_preserves_processed_output() {
    let policy = AutoGazeRealtimePolicy::new(0);
    assert_eq!(policy.max_in_flight(), 1);
    assert!(policy.should_start_inference(0));
    assert!(!policy.should_start_inference(1));
    assert!(policy.inference_busy(1));

    assert!(policy.should_draw_live_preview(false));
    assert!(!policy.should_draw_live_preview(true));
    assert!(policy.should_draw_async_stream_preview(false, 0));
    assert!(policy.should_draw_async_stream_preview(true, 0));
    assert!(policy.should_draw_async_stream_preview(true, 1));
}

#[test]
fn streaming_cache_is_realtime_only_and_requires_context() {
    assert!(should_use_streaming_cache(
        true,
        16,
        AutoGazeInferenceMode::ResizeToModelInput
    ));
    assert!(!should_use_streaming_cache(
        true,
        16,
        AutoGazeInferenceMode::TiledResizeToGrid { tile_size: 224 }
    ));
    assert!(!should_use_streaming_cache(
        true,
        1,
        AutoGazeInferenceMode::ResizeToModelInput
    ));
    assert!(!should_use_streaming_cache(
        false,
        16,
        AutoGazeInferenceMode::ResizeToModelInput
    ));
}

#[test]
fn shared_runtime_defaults_are_sane_for_realtime_wrappers() {
    assert_eq!(DEFAULT_MODEL_GENERATION_BUDGET, 0);
    assert_eq!(DEFAULT_REALTIME_TOP_K, 10);
    assert_eq!(DEFAULT_TILED_TOP_K, 2);
    assert_eq!(DEFAULT_TILED_MAX_GAZE_TOKENS, 24);
    assert_eq!(DEFAULT_REALTIME_FRAMES_PER_CLIP, 2);
    assert_eq!(DEFAULT_MAX_IN_FLIGHT, 1);
    assert_eq!(DEFAULT_TILED_FRAMES_PER_CLIP, 2);
    assert_eq!(DEFAULT_TILED_TILE_BATCH_SIZE, 64);
    assert_eq!(DEFAULT_KEYFRAME_DURATION, 30);
    let alpha = f32::from_bits(default_blend_alpha().to_bits());
    assert!((alpha - 0.38).abs() < f32::EPSILON);
}

#[test]
fn sequencer_keeps_the_newest_of_shuffled_results() {
    let mut sequencer = AutoGazeInferenceSequencer::default();
    for _ in 0..5 {
        sequencer.reserve();
    }
    let arrived = [2, 1, 5, 3, 4];
    let applied: Vec<bool> = arrived.iter().map(|s| sequencer.accept(*s)).collect();
    assert_eq!(applied, vec![true, false, true, false, false]);
    assert_eq!(sequencer.latest_applied_sequence(), 5);
    assert_eq!(sequencer.next_sequence(), 5);
}

#[test]
fn default_policy_runs_one_task() {
    let policy = AutoGazeRealtimePolicy::default();
    assert_eq!(policy.max_in_flight(), DEFAULT_MAX_IN_FLIGHT);
    assert_eq!(AutoGazeRealtimePolicy::new(3).max_in_flight(), 3);
}

#[test]
fn gaze_ratio_stats_clamp_samples_and_track_ema() {
    let default_alpha = f64::from_bits(DEFAULT_METRIC_EMA_ALPHA_BITS);
    assert_eq!(default_alpha, 0.15);
    let mut stats = AutoGazeGazeRatioStats::default();

    stats.record(double(2.0));
    assert!(stats.is_initialized());
    assert_eq!(value(stats.current()), 1.0);
    assert_eq!(value(stats.ema()), 1.0);

    stats.record(double(-1.0));
    assert_eq!(value(stats.current()), 0.0);
    assert!((value(stats.ema()) - (1.0 - default_alpha)).abs() < 1.0e-12);

    stats.record(double(f64::NAN));
    assert_eq!(value(stats.current()), 0.0);
    assert_eq!(format_gaze_ratio_percent(stats.current()), "0.0%");
    assert_eq!(format_gaze_ratio_percent(double(f64::NAN)), "--.-%");
}

#[test]
fn psnr_stats_and_format_handle_infinite_and_invalid_values_without_poisoning_ema() {
    let mut stats = AutoGazePsnrStats::default();

    stats.record(double(f64::INFINITY));
    assert!(stats.is_initialized());
    assert!(value(stats.current()).is_infinite());
    assert_eq!(format_psnr_db(stats.current()), "inf");

    stats.record(double(42.25));
    assert_eq!(value(stats.current()), 42.25);
    assert_eq!(value(stats.ema()), 42.25);
    assert_eq!(format_psnr_db(stats.current()), "42.2");

    stats.record(double(f64::NAN));
    assert_eq!(value(stats.current()), 42.25);
    assert_eq!(value(stats.ema()), 42.25);
    assert_eq!(format_psnr_db(double(f64::NAN)), "--.-");
}

#[test]
fn texts_match_the_formatting_of_machine_numbers() {
    let mut values = vec![
        0.0,
        -0.0,
        0.04,
        0.05,
        0.15,
        0.25,
        0.35,
        0.75,
        1.25,
        9.95,
        9.949,
        99.95,
        -0.04,
        -12.34,
        1.0e15 + 0.25,
        4503599627370496.5,
        1.0e16,
        1.0e22,
        123456789012345680000.0,
        f64::MAX,
        f64::MIN,
        f64::MIN_POSITIVE,
        f64::from_bits(1),
    ];
    let mut seed = 17u64;
    for _ in 0..400 {
        seed = seed.wrapping_mul(6364136223846793005).wrapping_add(1442695040888963407);
        values.push(f64::from_bits(seed));
        values.push((seed >> 40) as f64 / 4096.0);
        values.push((seed >> 50) as f64 / 16.0);
    }
    for x in values {
        if x.is_finite() {
            assert_eq!(format_psnr_db(double(x)), format!("{x:.1}"));
            assert_eq!(
                format_gaze_ratio_percent(double(x)),
                format!("{:.1}%", x.clamp(0.0, 1.0) * 100.0)
            );
        }
    }
    assert_eq!(format_psnr_db(double(f64::NEG_INFINITY)), "--.-");
    assert_eq!(format_gaze_ratio_percent(double(f64::INFINITY)), "--.-%");
    assert_eq!(format_gaze_ratio_percent(double(0.375)), "37.5%");
}

#[test]
fn fps_from_millis_handles_zero_and_positive_values() {
    assert_eq!(value(fps_from_millis(double(0.0))), 0.0);
    assert_eq!(value(fps_from_millis(double(20.0))), 50.0);
}

#[test]
fn psnr_stats_drop_the_negative_infinity() {
    let mut stats = AutoGazePsnrStats::default();
    stats.record(double(f64::NEG_INFINITY));
    assert!(!stats.is_initialized());
    assert_eq!(value(stats.current()), 0.0);
}

#[test]
fn averages_match_machine_arithmetic() {
    let samples = [3.5, 0.1, -7.25, 1.0e300, 42.0, 1.0e-310];
    let mut metric = AutoGazeEmaMetric::new(double(0.3));
    let mut expected = 0.0;
    for (i, sample) in samples.iter().enumerate() {
        metric.record(double(*sample));
        expected = if i == 0 {
            *sample
        } else {
            expected * (1.0 - 0.3) + sample * 0.3
        };
        assert_eq!(metric.ema().to_bits(), expected.to_bits());
        assert_eq!(value(metric.current()), *sample);
    }
    assert_eq!(value(metric.alpha()), 0.3);
    assert!(metric.is_initialized());
}

#[test]
fn average_recovers_after_an_infinite_sample() {
    let mut metric = AutoGazeEmaMetric::default();
    metric.record(double(1.0));
    metric.record(double(f64::INFINITY));
    assert!(value(metric.ema()).is_infinite());
    metric.record(double(2.0));
    assert_eq!(value(metric.ema()), 2.0);
}

#[test]
fn average_clamps_its_weight() {
    assert_eq!(value(ema_metric(double(1.0), double(5.0), double(2.0))), 5.0);
    assert_eq!(value(ema_metric(double(1.0), double(5.0), double(-2.0))), 1.0);
}

#[test]
fn ratios_are_sanitized() {
    assert_eq!(value(sanitize_gaze_ratio(double(0.25))), 0.25);
    assert_eq!(value(sanitize_gaze_ratio(double(7.0))), 1.0);
    assert_eq!(value(sanitize_gaze_ratio(double(f64::INFINITY))), 0.0);
}
