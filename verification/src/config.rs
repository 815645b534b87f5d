//! The part of a model's configuration that decoding reads.
use vstd::prelude::*;

verus! {

/// The vision tower.
#[derive(Clone, Copy, Debug, PartialEq, Eq, Structural)]
pub struct VisionModelConfig {
    /// Side of an image patch in pixels.
    pub kernel_size: usize,
}

/// The token decoder.
#[derive(Clone, Copy, Debug, PartialEq, Eq, Structural)]
pub struct GazeDecoderConfig {
    pub vocab_size: usize,
    pub eos_token_id: i64,
    /// How many tokens one decoding step proposes.
    pub num_multi_token_pred: usize,
}

/// The gaze model.
#[derive(Clone, Copy, Debug, PartialEq, Eq, Structural)]
pub struct GazeModelConfig {
    /// Side of the model's square input in pixels.
    pub input_img_size: usize,
    pub num_vision_tokens_each_frame: usize,
    pub vision_model_config: VisionModelConfig,
    pub gaze_decoder_config: GazeDecoderConfig,
}

/// A model's configuration.
#[derive(Clone, Debug)]
pub struct AutoGazeConfig {
    /// Input sides of the pyramid scales in pixels, coarse to fine.
    pub scales: Vec<usize>,
    pub max_num_frames: usize,
    /// Gaze tokens in one frame, over all scales.
    pub num_vision_tokens_each_frame: usize,
    pub gaze_model_config: GazeModelConfig,
}

impl AutoGazeConfig {
    /// Side of an image patch, at least one pixel.
    pub open spec fn patch_size(self) -> nat {
        let k = self.gaze_model_config.vision_model_config.kernel_size;
        if k == 0 {
            1
        } else {
            k as nat
        }
    }
}

impl Default for AutoGazeConfig {
    /// The four-scale configuration over a 224 pixel input with 16 pixel patches.
    fn default() -> (r: AutoGazeConfig)
        ensures
            r.scales@ == seq![32usize, 64, 112, 224],
            r.max_num_frames == 16,
            r.num_vision_tokens_each_frame == 265,
            r.gaze_model_config == (GazeModelConfig {
                input_img_size: 224,
                num_vision_tokens_each_frame: 265,
                vision_model_config: VisionModelConfig { kernel_size: 16 },
                gaze_decoder_config: GazeDecoderConfig {
                    vocab_size: 266,
                    eos_token_id: 265,
                    num_multi_token_pred: 10,
                },
            }),
    {
        AutoGazeConfig {
            scales: vec![32, 64, 112, 224],
            max_num_frames: 16,
            num_vision_tokens_each_frame: 265,
            gaze_model_config: GazeModelConfig {
                input_img_size: 224,
                num_vision_tokens_each_frame: 265,
                vision_model_config: VisionModelConfig { kernel_size: 16 },
                gaze_decoder_config: GazeDecoderConfig {
                    vocab_size: 266,
                    eos_token_id: 265,
                    num_multi_token_pred: 10,
                },
            },
        }
    }
}

} // verus!
