//! Options of loading and of running a model.
use crate::arith::{max_int, max_usize};
use crate::error::AutoGazeError;
use crate::ieee::Binary32;
use crate::nearness::lemma_single_larger_smaller;
use crate::placement::{is_unit, lemma_clamped, lemma_simple_values};
use crate::regions::lemma_edge_place;
use crate::runtime::DEFAULT_TILED_TILE_BATCH_SIZE;
use crate::trace::{at_least_one, single, unit_clamped, ONE_BITS, ZERO_BITS};
use vstd::prelude::*;

verus! {

/// How strictly model weights are loaded.
#[derive(Clone, Copy, Debug, PartialEq, Eq, Structural)]
pub struct AutoGazeLoadOptions {
    pub allow_partial: bool,
    pub validate: bool,
}

impl Default for AutoGazeLoadOptions {
    fn default() -> (r: AutoGazeLoadOptions)
        ensures
            r == (AutoGazeLoadOptions { allow_partial: false, validate: true }),
    {
        AutoGazeLoadOptions::strict()
    }
}

impl AutoGazeLoadOptions {
    /// All weights must be there and fit.
    pub fn strict() -> (r: AutoGazeLoadOptions)
        ensures
            r == (AutoGazeLoadOptions { allow_partial: false, validate: true }),
    {
        AutoGazeLoadOptions { allow_partial: false, validate: true }
    }

    /// Whatever fits is taken.
    pub fn permissive() -> (r: AutoGazeLoadOptions)
        ensures
            r == (AutoGazeLoadOptions { allow_partial: true, validate: false }),
    {
        AutoGazeLoadOptions { allow_partial: true, validate: false }
    }

    pub fn with_allow_partial(self, allow_partial: bool) -> (r: AutoGazeLoadOptions)
        ensures
            r == (AutoGazeLoadOptions { allow_partial, validate: self.validate }),
    {
        AutoGazeLoadOptions { allow_partial, validate: self.validate }
    }

    pub fn with_validate(self, validate: bool) -> (r: AutoGazeLoadOptions)
        ensures
            r == (AutoGazeLoadOptions { allow_partial: self.allow_partial, validate }),
    {
        AutoGazeLoadOptions { allow_partial: self.allow_partial, validate }
    }
}

/// Where the required task loss comes from.
#[derive(Clone, Copy, Debug, PartialEq, Eq, Structural)]
pub enum AutoGazeTaskLossOption {
    /// The model's own requirement.
    ModelDefault,
    /// No requirement.
    Disabled,
    /// A given requirement.
    Value(Binary32),
}

impl Default for AutoGazeTaskLossOption {
    fn default() -> (r: AutoGazeTaskLossOption)
        ensures
            r is ModelDefault,
    {
        AutoGazeTaskLossOption::ModelDefault
    }
}

/// What may be set of a pipeline; what is not set stays with the model.
#[derive(Clone, Copy, Debug, PartialEq, Eq, Structural)]
pub struct AutoGazePipelineOptions {
    pub max_gaze_tokens_each_frame: Option<usize>,
    pub task_loss_requirement: AutoGazeTaskLossOption,
    pub tile_batch_size: Option<usize>,
}

impl Default for AutoGazePipelineOptions {
    fn default() -> (r: AutoGazePipelineOptions)
        ensures
            r == (AutoGazePipelineOptions {
                max_gaze_tokens_each_frame: None,
                task_loss_requirement: AutoGazeTaskLossOption::ModelDefault,
                tile_batch_size: None,
            }),
    {
        AutoGazePipelineOptions::new()
    }
}

impl AutoGazePipelineOptions {
    /// Nothing set.
    pub fn new() -> (r: AutoGazePipelineOptions)
        ensures
            r == (AutoGazePipelineOptions {
                max_gaze_tokens_each_frame: None,
                task_loss_requirement: AutoGazeTaskLossOption::ModelDefault,
                tile_batch_size: None,
            }),
    {
        AutoGazePipelineOptions {
            max_gaze_tokens_each_frame: None,
            task_loss_requirement: AutoGazeTaskLossOption::ModelDefault,
            tile_batch_size: None,
        }
    }

    pub fn max_gaze_tokens_each_frame(&self) -> (r: Option<usize>)
        ensures
            r == self.max_gaze_tokens_each_frame,
    {
        self.max_gaze_tokens_each_frame
    }

    pub fn task_loss_requirement(&self) -> (r: AutoGazeTaskLossOption)
        ensures
            r == self.task_loss_requirement,
    {
        self.task_loss_requirement
    }

    pub fn tile_batch_size(&self) -> (r: Option<usize>)
        ensures
            r == self.tile_batch_size,
    {
        self.tile_batch_size
    }

    pub fn with_max_gaze_tokens_each_frame(self, max_gaze_tokens_each_frame: usize) -> (r:
        AutoGazePipelineOptions)
        ensures
            r == (AutoGazePipelineOptions {
                max_gaze_tokens_each_frame: Some(max_gaze_tokens_each_frame),
                task_loss_requirement: self.task_loss_requirement,
                tile_batch_size: self.tile_batch_size,
            }),
    {
        let mut options: AutoGazePipelineOptions = self;
        options.max_gaze_tokens_each_frame = Some(max_gaze_tokens_each_frame);
        options
    }

    pub fn with_model_default_gaze_tokens(self) -> (r: AutoGazePipelineOptions)
        ensures
            r == (AutoGazePipelineOptions {
                max_gaze_tokens_each_frame: None,
                task_loss_requirement: self.task_loss_requirement,
                tile_batch_size: self.tile_batch_size,
            }),
    {
        let mut options: AutoGazePipelineOptions = self;
        options.max_gaze_tokens_each_frame = None;
        options
    }

    /// The options with another task loss requirement.
    pub open spec fn with_task_loss(self, requirement: AutoGazeTaskLossOption) -> AutoGazePipelineOptions {
        AutoGazePipelineOptions {
            max_gaze_tokens_each_frame: self.max_gaze_tokens_each_frame,
            task_loss_requirement: requirement,
            tile_batch_size: self.tile_batch_size,
        }
    }

    pub fn with_task_loss_requirement(self, task_loss_requirement: Binary32) -> (r:
        AutoGazePipelineOptions)
        ensures
            r == self.with_task_loss(AutoGazeTaskLossOption::Value(task_loss_requirement)),
    {
        let mut options: AutoGazePipelineOptions = self;
        options.task_loss_requirement = AutoGazeTaskLossOption::Value(task_loss_requirement);
        options
    }

    pub fn without_task_loss_requirement(self) -> (r: AutoGazePipelineOptions)
        ensures
            r == self.with_task_loss(AutoGazeTaskLossOption::Disabled),
    {
        let mut options: AutoGazePipelineOptions = self;
        options.task_loss_requirement = AutoGazeTaskLossOption::Disabled;
        options
    }

    pub fn with_model_default_task_loss_requirement(self) -> (r: AutoGazePipelineOptions)
        ensures
            r == self.with_task_loss(AutoGazeTaskLossOption::ModelDefault),
    {
        let mut options: AutoGazePipelineOptions = self;
        options.task_loss_requirement = AutoGazeTaskLossOption::ModelDefault;
        options
    }

    pub fn with_tile_batch_size(self, tile_batch_size: usize) -> (r: AutoGazePipelineOptions)
        ensures
            r == (AutoGazePipelineOptions {
                max_gaze_tokens_each_frame: self.max_gaze_tokens_each_frame,
                task_loss_requirement: self.task_loss_requirement,
                tile_batch_size: Some(tile_batch_size),
            }),
    {
        let mut options: AutoGazePipelineOptions = self;
        options.tile_batch_size = Some(tile_batch_size);
        options
    }
}

/// The tokens that a model generates per frame by itself: its share of the frame's tokens where it
/// has one, otherwise as many as it predicts at once, at least one.
pub open spec fn default_tokens(
    gazing_ratio: Option<Binary32>,
    tokens_each_frame: nat,
    num_multi_token_pred: nat,
) -> nat {
    match gazing_ratio {
        Some(ratio) => {
            let share = unit_clamped(ratio).times(
                Binary32::of_nat(at_least_one(tokens_each_frame)),
            );
            at_least_one(share.to_usize(share.floor_int()) as nat)
        },
        None => at_least_one(num_multi_token_pred),
    }
}

pub fn default_max_gaze_tokens_each_frame(
    gazing_ratio: Option<Binary32>,
    tokens_each_frame: usize,
    num_multi_token_pred: usize,
) -> (r: usize)
    ensures
        r == default_tokens(gazing_ratio, tokens_each_frame as nat, num_multi_token_pred as nat),
{
    match gazing_ratio {
        Some(ratio) => {
            let share: Binary32 = ratio.clamped(single(ZERO_BITS), single(ONE_BITS)).times(
                Binary32::from_usize(max_usize(tokens_each_frame, 1)),
            );
            max_usize(share.floor_usize(), 1)
        },
        None => max_usize(num_multi_token_pred, 1),
    }
}

/// What a pipeline runs with, and what its model would run with.
#[derive(Clone, Copy, Debug, PartialEq, Eq, Structural)]
pub struct AutoGazePipelineSettings {
    pub max_gaze_tokens_each_frame: usize,
    pub task_loss_requirement: Option<Binary32>,
    pub tile_batch_size: usize,
    pub model_gaze_tokens: usize,
    pub model_task_loss: Option<Binary32>,
}

/// A requirement of at least zero.
pub open spec fn required_loss(requirement: Option<Binary32>) -> Option<Binary32> {
    match requirement {
        Some(value) => Some(value.larger(single(ZERO_BITS))),
        None => None,
    }
}

fn clamp_loss(requirement: Option<Binary32>) -> (r: Option<Binary32>)
    ensures
        r == required_loss(requirement),
{
    match requirement {
        Some(value) => Some(value.larger(single(ZERO_BITS))),
        None => None,
    }
}

impl AutoGazePipelineSettings {
    /// The settings of a model by itself.
    pub fn new(model_gaze_tokens: usize, model_task_loss: Option<Binary32>) -> (r:
        AutoGazePipelineSettings)
        ensures
            r == (AutoGazePipelineSettings {
                max_gaze_tokens_each_frame: model_gaze_tokens,
                task_loss_requirement: model_task_loss,
                tile_batch_size: DEFAULT_TILED_TILE_BATCH_SIZE,
                model_gaze_tokens,
                model_task_loss,
            }),
    {
        AutoGazePipelineSettings {
            max_gaze_tokens_each_frame: model_gaze_tokens,
            task_loss_requirement: model_task_loss,
            tile_batch_size: DEFAULT_TILED_TILE_BATCH_SIZE,
            model_gaze_tokens,
            model_task_loss,
        }
    }

    /// The settings after options are applied: tokens and losses that are not set go back to the
    /// model's; a tile batch size that is not set stays.
    pub open spec fn with_applied(self, options: AutoGazePipelineOptions) -> AutoGazePipelineSettings {
        AutoGazePipelineSettings {
            max_gaze_tokens_each_frame: match options.max_gaze_tokens_each_frame {
                Some(tokens) => at_least_one(tokens as nat) as usize,
                None => self.model_gaze_tokens,
            },
            task_loss_requirement: match options.task_loss_requirement {
                AutoGazeTaskLossOption::ModelDefault => self.model_task_loss,
                AutoGazeTaskLossOption::Disabled => None,
                AutoGazeTaskLossOption::Value(value) => required_loss(Some(value)),
            },
            tile_batch_size: match options.tile_batch_size {
                Some(size) => at_least_one(size as nat) as usize,
                None => self.tile_batch_size,
            },
            model_gaze_tokens: self.model_gaze_tokens,
            model_task_loss: self.model_task_loss,
        }
    }

    pub fn with_options(self, options: AutoGazePipelineOptions) -> (r: AutoGazePipelineSettings)
        ensures
            r == self.with_applied(options),
    {
        let mut settings: AutoGazePipelineSettings = self;
        settings.apply_options(options);
        settings
    }

    pub fn apply_options(&mut self, options: AutoGazePipelineOptions)
        ensures
            *final(self) == old(self).with_applied(options),
    {
        match options.max_gaze_tokens_each_frame {
            Some(tokens) => self.set_max_gaze_tokens_each_frame(tokens),
            None => self.reset_max_gaze_tokens_each_frame(),
        }
        match options.task_loss_requirement {
            AutoGazeTaskLossOption::ModelDefault => self.reset_task_loss_requirement(),
            AutoGazeTaskLossOption::Disabled => self.set_task_loss_requirement(None),
            AutoGazeTaskLossOption::Value(value) => self.set_task_loss_requirement(Some(value)),
        }
        match options.tile_batch_size {
            Some(size) => self.set_tile_batch_size(size),
            None => {},
        }
    }

    /// At least one token is generated per frame.
    pub fn set_max_gaze_tokens_each_frame(&mut self, max_gaze_tokens_each_frame: usize)
        ensures
            *final(self) == (AutoGazePipelineSettings {
                max_gaze_tokens_each_frame: at_least_one(
                    max_gaze_tokens_each_frame as nat,
                ) as usize,
                ..*old(self)
            }),
    {
        self.max_gaze_tokens_each_frame = max_usize(max_gaze_tokens_each_frame, 1);
    }

    pub fn reset_max_gaze_tokens_each_frame(&mut self)
        ensures
            *final(self) == (AutoGazePipelineSettings {
                max_gaze_tokens_each_frame: old(self).model_gaze_tokens,
                ..*old(self)
            }),
    {
        self.max_gaze_tokens_each_frame = self.model_gaze_tokens;
    }

    /// A required loss is at least zero.
    pub fn set_task_loss_requirement(&mut self, task_loss_requirement: Option<Binary32>)
        ensures
            *final(self) == (AutoGazePipelineSettings {
                task_loss_requirement: required_loss(task_loss_requirement),
                ..*old(self)
            }),
    {
        self.task_loss_requirement = clamp_loss(task_loss_requirement);
    }

    pub fn reset_task_loss_requirement(&mut self)
        ensures
            *final(self) == (AutoGazePipelineSettings {
                task_loss_requirement: old(self).model_task_loss,
                ..*old(self)
            }),
    {
        self.task_loss_requirement = self.model_task_loss;
    }

    /// At least one tile is run at once.
    pub fn set_tile_batch_size(&mut self, tile_batch_size: usize)
        ensures
            *final(self) == (AutoGazePipelineSettings {
                tile_batch_size: at_least_one(tile_batch_size as nat) as usize,
                ..*old(self)
            }),
    {
        self.tile_batch_size = max_usize(tile_batch_size, 1);
    }

    pub fn with_max_gaze_tokens_each_frame(self, max_gaze_tokens_each_frame: usize) -> (r:
        AutoGazePipelineSettings)
        ensures
            r == (AutoGazePipelineSettings {
                max_gaze_tokens_each_frame: at_least_one(
                    max_gaze_tokens_each_frame as nat,
                ) as usize,
                ..self
            }),
    {
        let mut settings: AutoGazePipelineSettings = self;
        settings.set_max_gaze_tokens_each_frame(max_gaze_tokens_each_frame);
        settings
    }

    pub fn with_task_loss_requirement(self, task_loss_requirement: Option<Binary32>) -> (r:
        AutoGazePipelineSettings)
        ensures
            r == (AutoGazePipelineSettings {
                task_loss_requirement: required_loss(task_loss_requirement),
                ..self
            }),
    {
        let mut settings: AutoGazePipelineSettings = self;
        settings.set_task_loss_requirement(task_loss_requirement);
        settings
    }

    pub fn with_tile_batch_size(self, tile_batch_size: usize) -> (r: AutoGazePipelineSettings)
        ensures
            r == (AutoGazePipelineSettings {
                tile_batch_size: at_least_one(tile_batch_size as nat) as usize,
                ..self
            }),
    {
        let mut settings: AutoGazePipelineSettings = self;
        settings.set_tile_batch_size(tile_batch_size);
        settings
    }

    /// The tokens generated where `k` fixations are asked for: never fewer than those.
    pub fn generation_budget(&self, k: usize) -> (r: usize)
        ensures
            r == max_int(self.max_gaze_tokens_each_frame as int, at_least_one(k as nat) as int),
    {
        max_usize(self.max_gaze_tokens_each_frame, max_usize(k, 1))
    }
}

/// Refuses frames that are not squares of the model's input size.
pub fn check_model_input(input_img_size: usize, height: usize, width: usize) -> (r: Result<
    (),
    AutoGazeError,
>)
    ensures
        ({
            let side = at_least_one(input_img_size as nat) as usize;
            match r {
                Ok(_) => height == side && width == side,
                Err(error) => !(height == side && width == side) && error == (
                AutoGazeError::ModelInputNotSquare { side, height, width }),
            }
        }),
{
    let side: usize = max_usize(input_img_size, 1);
    if height == side && width == side {
        Ok(())
    } else {
        Err(AutoGazeError::ModelInputNotSquare { side, height, width })
    }
}

/// Applying the same options twice changes nothing more, and what was set before does not matter
/// but for a tile batch size that the options leave open.
pub proof fn lemma_options_decide(
    settings: AutoGazePipelineSettings,
    earlier: AutoGazePipelineOptions,
    options: AutoGazePipelineOptions,
)
    ensures
        settings.with_applied(options).with_applied(options) == settings.with_applied(options),
        options.tile_batch_size is Some ==> settings.with_applied(earlier).with_applied(options)
            == settings.with_applied(options),
{
}

/// A model that gazes at a share of a frame's tokens generates that share of them, rounded down, but
/// at least one, as far as single precision tells them apart.
pub proof fn lemma_default_share(ratio: Binary32, tokens: nat, num_multi_token_pred: nat)
    requires
        is_unit(ratio),
        0 < tokens <= 0x1_0000,
    ensures
        ({
            let r = default_tokens(Some(ratio), tokens, num_multi_token_pred);
            let one = Binary32::one_value();
            let exact = ratio.value() * tokens;
            &&& 1 <= r <= tokens
            &&& r == 1 || 256 * (r * one) <= 256 * exact + one
            &&& 256 * exact <= 256 * ((r + 1) * one) + one
        }),
{
    lemma_simple_values();
    lemma_clamped(ratio, single(ZERO_BITS), single(ONE_BITS));
    lemma_edge_place(ratio, tokens);
    let one = Binary32::one_value() as int;
    let n = tokens as int;
    let v = ratio.times(Binary32::of_nat(tokens)).value();
    let q = v / one;
    vstd::arithmetic::div_mod::lemma_fundamental_div_mod(v, one);
    assert(n * one <= 0x1_0000 * one) by (nonlinear_arith)
        requires
            n <= 0x1_0000,
            one > 0,
    ;
    assert(0 <= q <= n) by (nonlinear_arith)
        requires
            v == one * q + v % one,
            0 <= v % one < one,
            0 <= v <= n * one,
    ;
    assert(one * q == q * one && (q + 1) * one == q * one + one && (q + 2) * one == q * one + 2
        * one) by (nonlinear_arith);
    let r = default_tokens(Some(ratio), tokens, num_multi_token_pred);
    if q == 0 {
        assert(2 * one == (r + 1) * one);
        assert(0 * one == 0) by (nonlinear_arith);
    } else {
        assert(r == q);
    }
}

/// A required loss is never negative, and one that is not negative is required as it is.
pub proof fn lemma_required_loss(value: Binary32)
    requires
        value.finite(),
    ensures
        required_loss(None) is None,
        required_loss(Some(value)) is Some,
        ({
            let required = required_loss(Some(value))->0;
            &&& required.finite()
            &&& required.value() == if value.value() < 0 {
                0
            } else {
                value.value()
            }
        }),
{
    lemma_simple_values();
    lemma_single_larger_smaller(value, single(ZERO_BITS));
}

} // verus!
