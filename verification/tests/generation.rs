use burn_autogaze::{
    device_finished_after_selection_block, device_greedy_chunk_from_packed_data,
    device_select_multi_tokens, disallowed_token_mask, generated_frame_fixations,
    generated_to_traces, pack_device_greedy_chunk, scale_token_layouts, AutoGazeConfig,
    AutoGazeDecodeStrategy, AutoGazeGenerateOutput, AutoGazeStreamingCache, Binary32, Binary64,
    DeviceGreedySelection, DeviceGreedySelectionConfig, DeviceGreedySelectionState,
    GenerationMode, GenerationRun, GenerationSettings, GenerationStep, GreedyTokenSelection,
    StepInputs, TaskLossStop,
};

const VOCAB: usize = 6;
const EOS: i64 = 5;
const VISION_TOKENS: usize = 4;
const STRIDE: usize = 5;

fn single(x: f32) -> Binary32 {
    Binary32::from_bits(x.to_bits())
}

fn settings(batch: usize, frames: usize, max_tokens: usize, num_multi: usize) -> GenerationSettings {
    GenerationSettings {
        batch,
        frames,
        vision_tokens: VISION_TOKENS,
        dim: 8,
        max_tokens,
        num_multi_token_pred: num_multi,
        vocab: VOCAB,
        eos_token_id: EOS,
        num_vision_tokens_each_frame: STRIDE,
        task_loss_requirement: None,
        coverage_stop_ratio: None,
        scale_layouts: Vec::new(),
    }
}

/// A decoder that scores tokens by what it has read: the marked slots of a row in their order, and
/// the position of the last one.
struct Decoder {
    cached: Vec<Vec<i64>>,
    waiting: Vec<Vec<i64>>,
    first_frame: usize,
    disallowed: Vec<bool>,
    finished: Vec<bool>,
    device_len: usize,
    chunk: Vec<DeviceGreedySelection>,
    steps: usize,
}

impl Decoder {
    fn new(batch: usize, first_frame: usize) -> Decoder {
        Decoder {
            cached: vec![Vec::new(); batch],
            waiting: vec![Vec::new(); batch],
            first_frame,
            disallowed: Vec::new(),
            finished: vec![false; batch],
            device_len: 0,
            chunk: Vec::new(),
            steps: 0,
        }
    }

    fn begin_frame(&mut self, frame: usize, dropped: usize, uncached: bool) {
        for b in 0..self.cached.len() {
            self.cached[b].drain(0..dropped);
            if uncached {
                let mut whole = std::mem::take(&mut self.cached[b]);
                whole.append(&mut self.waiting[b]);
                self.waiting[b] = whole;
            }
            for token in 0..VISION_TOKENS {
                let id = (self.first_frame + frame) * 100 + token * 7 + b * 31 + 1000;
                self.waiting[b].push(id as i64);
            }
            self.finished[b] = false;
        }
        self.disallowed = disallowed_token_mask(&vec![Vec::new(); self.cached.len()], EOS, VOCAB);
        self.device_len = 0;
    }

    /// Reads what waits and scores the tokens of `num_multi` steps.
    fn scores(&mut self, inputs: &StepInputs, num_multi: usize) -> Vec<f32> {
        let batch = self.cached.len();
        let query_len = self.waiting[0].len();
        assert_eq!(inputs.query_start, self.cached[0].len());
        assert_eq!(inputs.key_len, inputs.query_start + query_len);
        let positions = inputs.position_ids.expand(batch);
        assert_eq!(positions.len(), batch * query_len);
        let mut values = Vec::new();
        for b in 0..batch {
            let waiting = std::mem::take(&mut self.waiting[b]);
            self.cached[b].extend(waiting);
            let mut seed = positions[(b + 1) * query_len - 1] as u64;
            for (k, id) in self.cached[b].iter().enumerate() {
                let marked = match &inputs.attention_mask {
                    Some(mask) => mask[b * inputs.key_len + k] != 0,
                    None => true,
                };
                if marked {
                    seed = seed.wrapping_mul(6364136223846793005).wrapping_add(*id as u64 + 7);
                }
            }
            for step in 0..num_multi {
                for token in 0..VOCAB {
                    let mixed = seed
                        .wrapping_add((step * VOCAB + token) as u64)
                        .wrapping_mul(0x9E3779B97F4A7C15);
                    values.push(((mixed >> 40) % 1000) as f32 / 250.0 - 2.0);
                }
            }
            for _ in 0..num_multi {
                values.push(1.0);
            }
        }
        self.steps += 1;
        values
    }

    /// Selects on the device: rows that are finished take end tokens.
    fn select_on_device(&mut self, values: &[f32], num_multi: usize, max_tokens: usize, first: bool) {
        let batch = self.cached.len();
        let mut logits = Vec::new();
        let mut losses = Vec::new();
        for row in values.chunks(num_multi * VOCAB + num_multi) {
            logits.extend(row[..num_multi * VOCAB].iter().map(|x| single(*x)));
            losses.extend(row[num_multi * VOCAB..].iter().map(|x| single(*x)));
        }
        let selection = device_select_multi_tokens(
            &logits,
            &losses,
            batch,
            num_multi,
            VOCAB,
            &DeviceGreedySelectionState {
                disallowed: self.disallowed.clone(),
                finished: self.finished.clone(),
                current_len: self.device_len,
            },
            DeviceGreedySelectionConfig {
                eos_token_id: EOS,
                max_tokens,
                task_loss_stop: TaskLossStop { requirement: None, is_first_token: first },
            },
        );
        self.finished =
            device_finished_after_selection_block(&selection.finished, &selection.valid);
        self.disallowed = selection.disallowed.clone();
        self.device_len += num_multi;
        for b in 0..batch {
            self.waiting[b] = selection.tokens[b].clone();
        }
        self.chunk.push(selection);
    }

    fn read_back(&mut self, num_multi: usize) -> GreedyTokenSelection {
        let batch = self.cached.len();
        let slots = self.chunk.len() * num_multi;
        let tokens: Vec<Vec<Vec<i64>>> = self.chunk.iter().map(|s| s.tokens.clone()).collect();
        let valid: Vec<Vec<Vec<bool>>> = self.chunk.drain(..).map(|s| s.valid).collect();
        let packed = pack_device_greedy_chunk(&tokens, &valid, batch, slots);
        device_greedy_chunk_from_packed_data(&packed, batch, slots).expect("packed chunk")
    }
}

fn decode(
    mut run: GenerationRun,
    decoder: &mut Decoder,
) -> (AutoGazeStreamingCache, AutoGazeGenerateOutput) {
    let num_multi = run.settings.num_multi_token_pred;
    let max_tokens = run.settings.max_tokens;
    let uncached = run.mode == GenerationMode::Uncached;
    loop {
        match run.next_step() {
            GenerationStep::BeginFrame { frame } => {
                let dropped = run.begin_frame();
                decoder.begin_frame(frame, dropped, uncached);
            }
            GenerationStep::Decode => {
                let inputs = run.step_inputs();
                let values = decoder.scores(&inputs, num_multi);
                let scores: Vec<Binary32> = values.iter().map(|x| single(*x)).collect();
                let weights: Vec<Binary32> = values.iter().map(|x| single(x.exp())).collect();
                let selection = run.put_scores(&scores, &weights);
                for b in 0..selection.tokens.len() {
                    if uncached {
                        let mut whole = std::mem::take(&mut decoder.cached[b]);
                        whole.extend(&selection.tokens[b]);
                        decoder.waiting[b] = whole;
                    } else {
                        decoder.waiting[b] = selection.tokens[b].clone();
                    }
                }
            }
            GenerationStep::DecodeOnDevice => {
                let inputs = run.step_inputs();
                let values = decoder.scores(&inputs, num_multi);
                let first = run.frame.as_ref().expect("open frame").is_first_token;
                decoder.select_on_device(&values, num_multi, max_tokens, first);
                run.put_device_step();
            }
            GenerationStep::ReadBack { steps } => {
                assert_eq!(steps, decoder.chunk.len());
                let blocks: Vec<Vec<Vec<i64>>> =
                    decoder.chunk.iter().map(|step| step.tokens.clone()).collect();
                let selection = decoder.read_back(num_multi);
                let outcome = run.put_chunk(&selection);
                for b in 0..decoder.cached.len() {
                    let keep = decoder.cached[b].len() - outcome.forgotten_slots;
                    decoder.cached[b].truncate(keep);
                    decoder.waiting[b] =
                        blocks[outcome.actual_steps - 1][b][..outcome.last_new_tokens].to_vec();
                }
            }
            GenerationStep::EndFrame => run.end_frame(),
            GenerationStep::Done => return run.finish(),
        }
    }
}

fn decode_clip(settings: GenerationSettings, cached: bool) -> AutoGazeGenerateOutput {
    let mut decoder = Decoder::new(settings.batch, 0);
    decode(GenerationRun::for_clip(settings, cached), &mut decoder).1
}

fn same_tokens(a: &AutoGazeGenerateOutput, b: &AutoGazeGenerateOutput) {
    assert_eq!(a.gazing_pos, b.gazing_pos);
    assert_eq!(a.num_gazing_each_frame, b.num_gazing_each_frame);
    assert_eq!(a.if_padded_gazing, b.if_padded_gazing);
}

#[test]
fn cached_run_selects_what_an_uncached_run_selects() {
    for batch in 1..3 {
        for max_tokens in 1..6 {
            for num_multi in 1..4 {
                let cached = decode_clip(settings(batch, 3, max_tokens, num_multi), true);
                let uncached = decode_clip(settings(batch, 3, max_tokens, num_multi), false);
                same_tokens(&cached, &uncached);
                assert_eq!(cached.confidences, uncached.confidences);
                assert!(cached.num_gazing_each_frame.iter().all(|count| *count <= max_tokens));
            }
        }
    }
}

#[test]
fn streamed_run_selects_what_a_cached_run_selects() {
    let cached = decode_clip(settings(2, 3, 4, 2), true);

    let mut decoder = Decoder::new(2, 0);
    let (cache, streamed) = decode(
        GenerationRun::for_stream(
            settings(2, 3, 4, 2),
            AutoGazeStreamingCache::new(3),
            AutoGazeDecodeStrategy::HostGreedy,
        ),
        &mut decoder,
    );
    same_tokens(&streamed, &cached);
    assert_eq!(cache.processed_frames(), 3);

    // Frame by frame the stream gives the same tokens, at the place of the first frame.
    let mut cache = AutoGazeStreamingCache::new(3);
    let mut decoder = Decoder::new(2, 0);
    let mut start = 0;
    for frame in 0..3 {
        decoder.first_frame = frame;
        let (next, output) = decode(
            GenerationRun::for_stream(settings(2, 1, 4, 2), cache, AutoGazeDecodeStrategy::HostGreedy),
            &mut decoder,
        );
        cache = next;
        let count = cached.num_gazing_each_frame[frame];
        assert_eq!(output.num_gazing_each_frame, vec![count]);
        for b in 0..2 {
            let expected: Vec<i64> = cached.gazing_pos[b][start..start + count]
                .iter()
                .map(|token| token - (frame * STRIDE) as i64)
                .collect();
            assert_eq!(output.gazing_pos[b], expected);
        }
        start += count;
    }
}

#[test]
fn device_run_selects_what_a_host_run_selects() {
    let mut decoder = Decoder::new(2, 0);
    let (_, host) = decode(
        GenerationRun::for_stream(
            settings(2, 3, 4, 2),
            AutoGazeStreamingCache::new(3),
            AutoGazeDecodeStrategy::HostGreedy,
        ),
        &mut decoder,
    );
    for strategy in [
        AutoGazeDecodeStrategy::DeviceGreedy { chunk_size: 0 },
        AutoGazeDecodeStrategy::DeviceGreedy { chunk_size: 1 },
        AutoGazeDecodeStrategy::DeviceGreedy { chunk_size: 2 },
        AutoGazeDecodeStrategy::DeviceGreedy { chunk_size: 7 },
        AutoGazeDecodeStrategy::DeviceTerminalGreedy { chunk_size: 0 },
        AutoGazeDecodeStrategy::DeviceTerminalGreedy { chunk_size: 2 },
    ] {
        let mut decoder = Decoder::new(2, 0);
        let (_, device) = decode(
            GenerationRun::for_stream(settings(2, 3, 4, 2), AutoGazeStreamingCache::new(3), strategy),
            &mut decoder,
        );
        same_tokens(&device, &host);
        for (marks, padding) in device.confidences.iter().zip(&device.if_padded_gazing) {
            assert_eq!(marks.len(), padding.len());
            for (confidence, padded) in marks.iter().zip(padding) {
                assert_eq!(*confidence, single(if *padded { 0.0 } else { 1.0 }));
            }
        }
    }
}

#[test]
fn window_rolls_past_the_horizon_without_a_reset() {
    let mut cache = AutoGazeStreamingCache::new(2);
    let mut decoder = Decoder::new(1, 0);
    for frame in 0..6 {
        decoder.first_frame = frame;
        let (next, output) = decode(
            GenerationRun::for_stream(settings(1, 1, 4, 2), cache, AutoGazeDecodeStrategy::HostGreedy),
            &mut decoder,
        );
        cache = next;
        assert_eq!(output.num_gazing_each_frame.len(), 1);
        assert_eq!(cache.processed_frames(), frame + 1);
        assert!(cache.active_frames() <= cache.horizon_frames());
        // The cache and the decoder hold the same slots.
        let state = cache.state.as_ref().expect("state");
        assert_eq!(state.past_len, decoder.cached[0].len());
        assert_eq!(state.pending_query, Some(decoder.waiting[0].len()));
        assert_eq!(
            state.active_sequence_len(),
            decoder.cached[0].len() + decoder.waiting[0].len()
        );
    }
    assert_eq!(cache.active_frames(), 2);
    cache.reset();
    assert_eq!(cache.processed_frames(), 0);
    assert_eq!(cache.active_frames(), 0);
}

#[test]
fn clips_of_another_shape_start_over() {
    let mut decoder = Decoder::new(1, 0);
    let (cache, _) = decode(
        GenerationRun::for_stream(
            settings(1, 2, 4, 2),
            AutoGazeStreamingCache::new(4),
            AutoGazeDecodeStrategy::HostGreedy,
        ),
        &mut decoder,
    );
    assert_eq!(cache.processed_frames(), 2);
    let mut decoder = Decoder::new(2, 0);
    let (cache, output) = decode(
        GenerationRun::for_stream(settings(2, 1, 4, 2), cache, AutoGazeDecodeStrategy::HostGreedy),
        &mut decoder,
    );
    assert_eq!(cache.processed_frames(), 1);
    assert_eq!(output.gazing_pos.len(), 2);
}

#[test]
fn tokens_of_a_frame_are_distinct_and_offset() {
    let output = decode_clip(settings(1, 3, 5, 1), true);
    let mut start = 0;
    for (frame, count) in output.num_gazing_each_frame.iter().enumerate() {
        let mut tokens: Vec<i64> = output.gazing_pos[0][start..start + count]
            .iter()
            .map(|token| token - (frame * STRIDE) as i64)
            .collect();
        assert!(tokens.iter().all(|token| (0..VOCAB as i64).contains(token) && *token != EOS));
        tokens.sort();
        tokens.dedup();
        assert_eq!(tokens.len(), *count);
        start += count;
    }
    assert_eq!(output.gazing_pos[0].len(), start);
}

#[test]
fn generated_frames_read_back() {
    let mut config = AutoGazeConfig {
        scales: vec![8, 16],
        max_num_frames: 2,
        num_vision_tokens_each_frame: 5,
        ..AutoGazeConfig::default()
    };
    config.gaze_model_config.input_img_size = 16;
    config.gaze_model_config.num_vision_tokens_each_frame = 5;
    config.gaze_model_config.vision_model_config.kernel_size = 8;
    let layouts = scale_token_layouts(&config);
    assert_eq!(layouts.iter().map(|layout| layout.token_count).sum::<usize>(), 5);

    let output = decode_clip(settings(1, 3, 4, 2), true);
    let traces = generated_to_traces(&output, &config, 1);
    assert_eq!(traces[0].frames.len(), 3);
    for frame in 0..3 {
        let fixations = generated_frame_fixations(&output, &config, 0, frame).expect("frame");
        assert_eq!(fixations.points.len(), output.num_gazing_each_frame[frame]);
        assert_eq!(&traces[0].frames[frame].points[..fixations.points.len()], &fixations.points[..]);
    }
}

#[test]
fn a_requirement_on_the_task_loss_ends_a_frame() {
    let mut with_requirement = settings(1, 1, 4, 2);
    with_requirement.task_loss_requirement = Some(single(2.0));
    let output = decode_clip(with_requirement, false);
    // The first token is exempt, and the second one meets the requirement.
    assert_eq!(output.num_gazing_each_frame, vec![2]);
    assert_eq!(output.if_padded_gazing, vec![vec![false, true]]);
    assert_eq!(output.gazing_pos[0][1], EOS);
    assert_eq!(output.confidences[0][1].to_bits(), 0);
}

#[test]
fn coverage_ends_a_frame() {
    let mut with_coverage = settings(1, 1, 5, 1);
    let mut config = AutoGazeConfig {
        scales: vec![8, 16],
        num_vision_tokens_each_frame: 5,
        ..AutoGazeConfig::default()
    };
    config.gaze_model_config.input_img_size = 16;
    config.gaze_model_config.num_vision_tokens_each_frame = 5;
    config.gaze_model_config.vision_model_config.kernel_size = 8;
    with_coverage.scale_layouts = scale_token_layouts(&config);
    with_coverage.coverage_stop_ratio = Some(Binary64::from_bits(0.25f64.to_bits()));
    let output = decode_clip(with_coverage, false);
    // Any token covers at least a quarter.
    assert_eq!(output.num_gazing_each_frame, vec![1]);
    assert_eq!(output.if_padded_gazing, vec![vec![false]]);
}

#[test]
fn too_few_scores_end_the_frame() {
    let mut run = GenerationRun::for_clip(settings(1, 1, 4, 2), true);
    assert_eq!(run.next_step(), GenerationStep::BeginFrame { frame: 0 });
    run.begin_frame();
    assert_eq!(run.next_step(), GenerationStep::Decode);
    let selection = run.put_scores(&[], &[]);
    assert_eq!(selection.tokens, vec![Vec::<i64>::new()]);
    assert_eq!(run.next_step(), GenerationStep::EndFrame);
    run.end_frame();
    assert_eq!(run.next_step(), GenerationStep::Done);
    let (_, output) = run.finish();
    assert_eq!(output.num_gazing_each_frame, vec![0]);
}

#[test]
fn a_clip_without_frames_is_done() {
    let run = GenerationRun::for_clip(settings(1, 0, 4, 2), true);
    assert_eq!(run.next_step(), GenerationStep::Done);
    let (_, output) = run.finish();
    assert!(output.num_gazing_each_frame.is_empty());
    let (cache, _) = decode(
        GenerationRun::for_stream(
            settings(1, 0, 4, 2),
            AutoGazeStreamingCache::new(0),
            AutoGazeDecodeStrategy::HostGreedy,
        ),
        &mut Decoder::new(1, 0),
    );
    assert_eq!(cache.horizon_frames(), 1);
    assert!(cache.state.is_none());
}

#[test]
fn device_steps_follow_the_chunk_size() {
    let steps = |strategy: AutoGazeDecodeStrategy| {
        let mut run =
            GenerationRun::for_stream(settings(1, 1, 5, 2), AutoGazeStreamingCache::new(2), strategy);
        run.begin_frame();
        let mut count = 0;
        while run.next_step() == GenerationStep::DecodeOnDevice {
            run.put_device_step();
            count += 1;
        }
        assert_eq!(run.next_step(), GenerationStep::ReadBack { steps: count });
        count
    };
    assert_eq!(steps(AutoGazeDecodeStrategy::DeviceGreedy { chunk_size: 1 }), 1);
    assert_eq!(steps(AutoGazeDecodeStrategy::DeviceGreedy { chunk_size: 2 }), 2);
    assert_eq!(steps(AutoGazeDecodeStrategy::DeviceGreedy { chunk_size: 9 }), 3);
    assert_eq!(steps(AutoGazeDecodeStrategy::DeviceTerminalGreedy { chunk_size: 1 }), 3);
}

#[test]
fn an_empty_batch_generates_nothing_in_every_frame() {
    for cached in [false, true] {
        let mut run = GenerationRun::for_clip(settings(0, 2, 4, 2), cached);
        assert_eq!(run.next_step(), GenerationStep::BeginFrame { frame: 0 });
        run.begin_frame();
        assert_eq!(run.next_step(), GenerationStep::EndFrame);
        run.end_frame();
        assert_eq!(run.next_step(), GenerationStep::BeginFrame { frame: 1 });
        run.begin_frame();
        assert_eq!(run.next_step(), GenerationStep::EndFrame);
        run.end_frame();
        assert_eq!(run.next_step(), GenerationStep::Done);
        let (_, output) = run.finish();
        assert_eq!(output.num_gazing_each_frame, vec![0, 0]);
        assert!(output.gazing_pos.is_empty());
        assert!(output.if_padded_gazing.is_empty());
        assert!(output.confidences.is_empty());
    }
    for strategy in [
        AutoGazeDecodeStrategy::HostGreedy,
        AutoGazeDecodeStrategy::DeviceGreedy { chunk_size: 2 },
        AutoGazeDecodeStrategy::DeviceTerminalGreedy { chunk_size: 2 },
    ] {
        let mut cache = AutoGazeStreamingCache::new(2);
        for clip in 1..4 {
            let (next, output) = decode(
                GenerationRun::for_stream(settings(0, 3, 4, 2), cache, strategy),
                &mut Decoder::new(0, 0),
            );
            cache = next;
            assert_eq!(output.num_gazing_each_frame, vec![0, 0, 0]);
            assert!(output.gazing_pos.is_empty());
            assert_eq!(cache.processed_frames(), 3 * clip);
        }
    }
}

#[test]
fn a_device_reads_what_the_host_reads_while_blocks_are_full() {
    let stream = |strategy: AutoGazeDecodeStrategy| {
        GenerationRun::for_stream(settings(2, 1, 4, 2), AutoGazeStreamingCache::new(2), strategy)
    };
    let mut host = stream(AutoGazeDecodeStrategy::HostGreedy);
    let mut device = stream(AutoGazeDecodeStrategy::DeviceGreedy { chunk_size: 1 });
    let mut host_decoder = Decoder::new(2, 0);
    let mut device_decoder = Decoder::new(2, 0);
    let dropped = host.begin_frame();
    assert_eq!(device.begin_frame(), dropped);
    host_decoder.begin_frame(0, dropped, false);
    device_decoder.begin_frame(0, dropped, false);
    for step in 0..2 {
        assert_eq!(host.next_step(), GenerationStep::Decode);
        if step == 1 {
            assert_eq!(device.next_step(), GenerationStep::ReadBack { steps: 1 });
            let selection = device_decoder.read_back(2);
            let outcome = device.put_chunk(&selection);
            assert_eq!((outcome.actual_slots, outcome.last_new_tokens), (2, 2));
        }
        assert_eq!(device.next_step(), GenerationStep::DecodeOnDevice);
        let (inputs, same) = (host.step_inputs(), device.step_inputs());
        assert_eq!(inputs.query_start, same.query_start);
        assert_eq!(inputs.key_len, same.key_len);
        assert_eq!(inputs.attention_mask, same.attention_mask);
        assert_eq!(inputs.position_ids.expand(2), same.position_ids.expand(2));
        let values = host_decoder.scores(&inputs, 2);
        assert_eq!(values, device_decoder.scores(&same, 2));
        let scores: Vec<Binary32> = values.iter().map(|x| single(*x)).collect();
        let weights: Vec<Binary32> = values.iter().map(|x| single(x.exp())).collect();
        let block = host.put_scores(&scores, &weights);
        host_decoder.waiting = block.tokens.clone();
        device_decoder.select_on_device(&values, 2, 4, step == 0);
        device.put_device_step();
        assert_eq!(device_decoder.waiting, block.tokens);
    }
    assert_eq!(host.next_step(), GenerationStep::EndFrame);
    assert_eq!(device.next_step(), GenerationStep::ReadBack { steps: 1 });
}

#[test]
fn narrow_last_blocks_keep_device_streams_in_pace() {
    let stream = |frames: usize, cap: usize, horizon: usize, strategy: AutoGazeDecodeStrategy| {
        let mut decoder = Decoder::new(2, 0);
        let mut cache = AutoGazeStreamingCache::new(horizon);
        let mut outputs = Vec::new();
        for clip in 0..2 {
            decoder.first_frame = clip * frames;
            let (next, output) = decode(
                GenerationRun::for_stream(settings(2, frames, cap, 2), cache, strategy),
                &mut decoder,
            );
            cache = next;
            outputs.push(output);
        }
        let state = cache.state.expect("state");
        assert_eq!(state.past_len, decoder.cached[0].len());
        assert_eq!(state.pending_query, Some(decoder.waiting[0].len()));
        assert_eq!(
            state.past_len + decoder.waiting[0].len(),
            state.prefix_attention_mask[0].len()
        );
        (outputs, decoder.cached, decoder.waiting, state.past_len)
    };
    for cap in [1, 3, 4, 5] {
        for horizon in [1, 2, 6] {
            let host = stream(3, cap, horizon, AutoGazeDecodeStrategy::HostGreedy);
            assert_eq!(host.0[0].num_gazing_each_frame, vec![cap; 3]);
            for chunk_size in 0..4 {
                for strategy in [
                    AutoGazeDecodeStrategy::DeviceGreedy { chunk_size },
                    AutoGazeDecodeStrategy::DeviceTerminalGreedy { chunk_size },
                ] {
                    let device = stream(3, cap, horizon, strategy);
                    for (output, expected) in device.0.iter().zip(&host.0) {
                        same_tokens(output, expected);
                    }
                    assert_eq!(device.1, host.1);
                    assert_eq!(device.2, host.2);
                    assert_eq!(device.3, host.3);
                }
            }
        }
    }
}

#[test]
fn reading_back_forgets_only_what_was_read() {
    // One token is wanted, two are selected: the second was never read, so that nothing leaves the
    // cache.
    let mut run = GenerationRun::for_stream(
        settings(1, 1, 1, 2),
        AutoGazeStreamingCache::new(2),
        AutoGazeDecodeStrategy::DeviceGreedy { chunk_size: 3 },
    );
    run.begin_frame();
    run.put_device_step();
    assert_eq!(run.next_step(), GenerationStep::ReadBack { steps: 1 });
    let selection = GreedyTokenSelection {
        tokens: vec![vec![2, 3]],
        valid: vec![vec![true, true]],
        confidences: vec![vec![single(1.0), single(1.0)]],
    };
    let outcome = run.put_chunk(&selection);
    assert_eq!((outcome.actual_slots, outcome.actual_steps), (1, 1));
    assert_eq!((outcome.last_new_tokens, outcome.forgotten_slots), (1, 0));
    let state = run.cache.state.as_ref().expect("state");
    assert_eq!(state.past_len, VISION_TOKENS);
    assert_eq!(state.pending_query, Some(1));
    assert_eq!(state.prefix_attention_mask[0].len(), VISION_TOKENS + 1);

    // The row ends in the first of two steps: its block was read, and waits to be read again.
    let mut run = GenerationRun::for_stream(
        settings(1, 1, 4, 2),
        AutoGazeStreamingCache::new(2),
        AutoGazeDecodeStrategy::DeviceGreedy { chunk_size: 2 },
    );
    run.begin_frame();
    run.put_device_step();
    run.put_device_step();
    let selection = GreedyTokenSelection {
        tokens: vec![vec![2, EOS, EOS, EOS]],
        valid: vec![vec![true, false, false, false]],
        confidences: vec![vec![single(1.0), single(0.0), single(0.0), single(0.0)]],
    };
    let outcome = run.put_chunk(&selection);
    assert_eq!((outcome.actual_slots, outcome.actual_steps), (2, 1));
    assert_eq!((outcome.last_new_tokens, outcome.forgotten_slots), (2, 2));
    let state = run.cache.state.as_ref().expect("state");
    assert_eq!(state.past_len, VISION_TOKENS);
    assert_eq!(state.pending_query, Some(2));
}

#[test]
fn a_narrow_last_block_is_selected_alike() {
    let stream = |strategy: AutoGazeDecodeStrategy| {
        decode(
            GenerationRun::for_stream(settings(2, 1, 5, 2), AutoGazeStreamingCache::new(2), strategy),
            &mut Decoder::new(2, 0),
        )
        .1
    };
    let host = stream(AutoGazeDecodeStrategy::HostGreedy);
    assert_eq!(host.num_gazing_each_frame, vec![5]);
    for chunk_size in 0..5 {
        same_tokens(&stream(AutoGazeDecodeStrategy::DeviceGreedy { chunk_size }), &host);
        same_tokens(&stream(AutoGazeDecodeStrategy::DeviceTerminalGreedy { chunk_size }), &host);
    }
}

#[test]
fn a_stream_that_is_given_up_keeps_what_was_read() {
    let consistent = |cache: &AutoGazeStreamingCache, slots: usize| {
        let state = cache.state.as_ref().expect("state");
        assert_eq!(state.past_len, slots);
        assert_eq!(state.prefix_attention_mask[0].len(), slots);
        assert_eq!(state.prefix_position_ids[0].len(), slots);
        assert_eq!(state.pending_query, None);
        assert_eq!(cache.processed_frames(), 0);
        assert_eq!(cache.active_frames(), 0);
    };
    let mut run = GenerationRun::for_stream(
        settings(1, 1, 4, 2),
        AutoGazeStreamingCache::new(3),
        AutoGazeDecodeStrategy::HostGreedy,
    );
    run.begin_frame();
    assert_eq!(run.next_step(), GenerationStep::Decode);
    let cache = run.give_up();
    assert_eq!(cache.horizon_frames(), 3);
    consistent(&cache, VISION_TOKENS);
    // The stream goes on behind it.
    let mut run = GenerationRun::for_stream(
        settings(1, 1, 4, 2),
        cache,
        AutoGazeDecodeStrategy::DeviceGreedy { chunk_size: 2 },
    );
    run.begin_frame();
    run.put_device_step();
    run.put_device_step();
    assert_eq!(run.next_step(), GenerationStep::ReadBack { steps: 2 });
    // The block of the last step was not read.
    let cache = run.give_up();
    consistent(&cache, 2 * VISION_TOKENS + 2);
}
