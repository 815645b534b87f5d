//! Shapes of image pyramids.
use crate::arith::{max_int, max_usize, min_int, min_usize};
use crate::error::AutoGazeError;
use crate::trace::at_least_one;
use vstd::prelude::*;

verus! {

/// The size of one level of a pyramid, in tokens.
#[derive(Clone, Copy, Debug, PartialEq, Eq, Structural)]
pub struct ImagePyramidLevel {
    pub height: usize,
    pub width: usize,
}

impl ImagePyramidLevel {
    pub fn new(height: usize, width: usize) -> (r: ImagePyramidLevel)
        ensures
            r == (ImagePyramidLevel { height, width }),
    {
        ImagePyramidLevel { height, width }
    }

    /// The number of tokens.
    pub open spec fn tokens(self) -> nat {
        self.height as nat * self.width as nat
    }

    pub fn token_count(&self) -> (r: usize)
        requires
            self.tokens() <= usize::MAX,
        ensures
            r == self.tokens(),
    {
        self.height * self.width
    }

    /// The level with sides of at least one.
    pub open spec fn normal(self) -> ImagePyramidLevel {
        ImagePyramidLevel {
            height: at_least_one(self.height as nat) as usize,
            width: at_least_one(self.width as nat) as usize,
        }
    }

    pub fn normalized(self) -> (r: ImagePyramidLevel)
        ensures
            r == self.normal(),
    {
        ImagePyramidLevel { height: max_usize(self.height, 1), width: max_usize(self.width, 1) }
    }
}

/// The tokens of the first `k` levels.
pub open spec fn tokens_before(levels: Seq<ImagePyramidLevel>, k: nat) -> nat
    decreases k,
{
    if k == 0 {
        0
    } else {
        tokens_before(levels, (k - 1) as nat) + levels[k - 1].normal().tokens()
    }
}

proof fn lemma_tokens_monotone(levels: Seq<ImagePyramidLevel>, k: nat, n: nat)
    requires
        k <= n,
    ensures
        tokens_before(levels, k) <= tokens_before(levels, n),
    decreases n,
{
    if k < n {
        lemma_tokens_monotone(levels, k, (n - 1) as nat);
    }
}

/// The levels of a pyramid and where the tokens of each begin and end.
#[derive(Clone, Debug, PartialEq, Eq)]
pub struct ImagePyramidPlan {
    pub levels: Vec<ImagePyramidLevel>,
    pub level_token_ranges: Vec<(usize, usize)>,
}

/// Lays out the tokens of a pyramid level by level.
pub fn plan_pyramid(levels: &[ImagePyramidLevel]) -> (r: Result<ImagePyramidPlan, AutoGazeError>)
    requires
        tokens_before(levels@, levels@.len()) <= usize::MAX,
    ensures
        match r {
            Ok(plan) => {
                &&& levels@.len() > 0
                &&& plan.levels@ == Seq::new(levels@.len(), |i: int| levels@[i].normal())
                &&& plan.level_token_ranges@.len() == levels@.len()
                &&& forall|i: int|
                    0 <= i < levels@.len() ==> (#[trigger] plan.level_token_ranges@[i]).0
                        == tokens_before(levels@, i as nat) && plan.level_token_ranges@[i].1
                        == tokens_before(levels@, (i + 1) as nat)
            },
            Err(error) => levels@.len() == 0 && error == AutoGazeError::EmptyPyramid,
        },
{
    if levels.len() == 0 {
        return Err(AutoGazeError::EmptyPyramid);
    }
    let mut normalized: Vec<ImagePyramidLevel> = Vec::new();
    let mut ranges: Vec<(usize, usize)> = Vec::new();
    let mut offset: usize = 0;
    let mut i: usize = 0;
    while i < levels.len()
        invariant
            i <= levels@.len(),
            tokens_before(levels@, levels@.len()) <= usize::MAX,
            offset == tokens_before(levels@, i as nat),
            normalized@ == Seq::new(i as nat, |j: int| levels@[j].normal()),
            ranges@.len() == i,
            forall|j: int|
                0 <= j < i ==> (#[trigger] ranges@[j]).0 == tokens_before(levels@, j as nat)
                    && ranges@[j].1 == tokens_before(levels@, (j + 1) as nat),
        decreases levels@.len() - i,
    {
        let level: ImagePyramidLevel = levels[i].normalized();
        proof {
            lemma_tokens_monotone(levels@, (i + 1) as nat, levels@.len());
        }
        let count: usize = level.token_count();
        ranges.push((offset, offset + count));
        normalized.push(level);
        offset = offset + count;
        i = i + 1;
        assert(normalized@ =~= Seq::new(i as nat, |j: int| levels@[j].normal()));
    }
    Ok(ImagePyramidPlan { levels: normalized, level_token_ranges: ranges })
}

/// Every token of a pyramid belongs to one level.
pub proof fn lemma_levels_partition_tokens(levels: Seq<ImagePyramidLevel>, token: nat)
    requires
        token < tokens_before(levels, levels.len()),
    ensures
        exists|i: int|
            0 <= i < levels.len() && #[trigger] tokens_before(levels, i as nat) <= token
                < tokens_before(levels, (i + 1) as nat),
        forall|i: int, j: int|
            #![trigger tokens_before(levels, i as nat), tokens_before(levels, j as nat)]
            0 <= i < levels.len() && 0 <= j < levels.len() && tokens_before(levels, i as nat)
                <= token < tokens_before(levels, (i + 1) as nat) && tokens_before(levels, j as nat)
                <= token < tokens_before(levels, (j + 1) as nat) ==> i == j,
{
    lemma_level_of(levels, levels.len(), token);
    assert forall|i: int, j: int|
        #![trigger tokens_before(levels, i as nat), tokens_before(levels, j as nat)]
        0 <= i < levels.len() && 0 <= j < levels.len() && tokens_before(levels, i as nat) <= token
            < tokens_before(levels, (i + 1) as nat) && tokens_before(levels, j as nat) <= token
            < tokens_before(levels, (j + 1) as nat) implies i == j by {
        if i < j {
            lemma_tokens_monotone(levels, (i + 1) as nat, j as nat);
        } else if j < i {
            lemma_tokens_monotone(levels, (j + 1) as nat, i as nat);
        }
    }
}

proof fn lemma_level_of(levels: Seq<ImagePyramidLevel>, k: nat, token: nat)
    requires
        k <= levels.len(),
        token < tokens_before(levels, k),
    ensures
        exists|i: int|
            0 <= i < k && #[trigger] tokens_before(levels, i as nat) <= token < tokens_before(
                levels,
                (i + 1) as nat,
            ),
    decreases k,
{
    if token < tokens_before(levels, (k - 1) as nat) {
        lemma_level_of(levels, (k - 1) as nat, token);
    } else {
        let i = k - 1;
        assert(tokens_before(levels, i as nat) <= token < tokens_before(levels, (i + 1) as nat));
    }
}

/// What is wrong with the shape of an image.
pub open spec fn image_flaw(batch: usize, channels: usize, height: usize, width: usize) -> Option<
    AutoGazeError,
> {
    if batch == 0 {
        Some(AutoGazeError::EmptyImageBatch)
    } else if channels == 0 {
        Some(AutoGazeError::EmptyImageChannels)
    } else if height == 0 || width == 0 {
        Some(AutoGazeError::EmptyImage)
    } else {
        None
    }
}

pub fn ensure_image_shape(batch: usize, channels: usize, height: usize, width: usize) -> (r: Result<
    (),
    AutoGazeError,
>)
    ensures
        match r {
            Ok(_) => image_flaw(batch, channels, height, width) is None,
            Err(error) => image_flaw(batch, channels, height, width) == Some(error),
        },
{
    if batch == 0 {
        Err(AutoGazeError::EmptyImageBatch)
    } else if channels == 0 {
        Err(AutoGazeError::EmptyImageChannels)
    } else if height == 0 || width == 0 {
        Err(AutoGazeError::EmptyImage)
    } else {
        Ok(())
    }
}

/// How a mask is brought to the shape of images.
#[derive(Clone, Copy, Debug, PartialEq, Eq, Structural)]
pub struct MaskPlan {
    pub average_channels: bool,
    pub resize: bool,
    pub repeat: bool,
}

/// What has to be done so that a mask fits a batch of images: channels are averaged into one, the
/// size is brought to the images', and a single mask is repeated for every image.
pub fn plan_mask(
    mask_batch: usize,
    mask_channels: usize,
    mask_height: usize,
    mask_width: usize,
    batch: usize,
    height: usize,
    width: usize,
) -> (r: Result<MaskPlan, AutoGazeError>)
    ensures
        match r {
            Ok(plan) => {
                &&& mask_batch == 1 || mask_batch == batch
                &&& mask_channels > 0
                &&& plan.average_channels == (mask_channels != 1)
                &&& plan.resize == (mask_height != height || mask_width != width)
                &&& plan.repeat == (mask_batch == 1 && batch > 1)
            },
            Err(error) => if mask_batch != 1 && mask_batch != batch {
                error == AutoGazeError::MaskBatchMismatch
            } else {
                mask_channels == 0 && error == AutoGazeError::EmptyMaskChannels
            },
        },
{
    if mask_batch != 1 && mask_batch != batch {
        return Err(AutoGazeError::MaskBatchMismatch);
    }
    if mask_channels == 0 {
        return Err(AutoGazeError::EmptyMaskChannels);
    }
    Ok(
        MaskPlan {
            average_channels: mask_channels != 1,
            resize: mask_height != height || mask_width != width,
            repeat: mask_batch == 1 && batch > 1,
        },
    )
}

/// Refuses masks for pyramids that have no images or no pixels.
pub fn check_pyramid_mask(mask_batch: usize, image_height: usize, image_width: usize) -> (r: Result<
    (),
    AutoGazeError,
>)
    ensures
        match r {
            Ok(_) => image_height > 0 && image_width > 0 && mask_batch > 0,
            Err(error) => if image_height == 0 || image_width == 0 {
                error == AutoGazeError::EmptyImage
            } else {
                mask_batch == 0 && error == AutoGazeError::EmptyMaskBatch
            },
        },
{
    if image_height == 0 || image_width == 0 {
        Err(AutoGazeError::EmptyImage)
    } else if mask_batch == 0 {
        Err(AutoGazeError::EmptyMaskBatch)
    } else {
        Ok(())
    }
}

/// Refuses fixation masks without images or pixels.
pub fn check_fixation_mask(batch: usize, height: usize, width: usize) -> (r: Result<
    (),
    AutoGazeError,
>)
    ensures
        match r {
            Ok(_) => batch > 0 && height > 0 && width > 0,
            Err(error) => if batch == 0 {
                error == AutoGazeError::EmptyMaskBatch
            } else {
                (height == 0 || width == 0) && error == AutoGazeError::EmptyMask
            },
        },
{
    if batch == 0 {
        Err(AutoGazeError::EmptyMaskBatch)
    } else if height == 0 || width == 0 {
        Err(AutoGazeError::EmptyMask)
    } else {
        Ok(())
    }
}

/// Refuses masks of traces where there is no trace or no pixel.
pub fn check_trace_masks(traces: usize, height: usize, width: usize) -> (r: Result<
    (),
    AutoGazeError,
>)
    ensures
        match r {
            Ok(_) => traces > 0 && height > 0 && width > 0,
            Err(error) => if traces == 0 {
                error == AutoGazeError::NoTraces
            } else {
                (height == 0 || width == 0) && error == AutoGazeError::EmptyMask
            },
        },
{
    if traces == 0 {
        Err(AutoGazeError::NoTraces)
    } else if height == 0 || width == 0 {
        Err(AutoGazeError::EmptyMask)
    } else {
        Ok(())
    }
}

/// How many of a pyramid's tokens are kept: at most `max_tokens`, at least one, and no more than
/// there are.
pub fn sparse_token_count(total_tokens: usize, channels: usize, max_tokens: usize) -> (r: Result<
    usize,
    AutoGazeError,
>)
    ensures
        match r {
            Ok(k) => total_tokens > 0 && channels > 0 && k == min_int(
                max_int(max_tokens as int, 1),
                total_tokens as int,
            ),
            Err(error) => if total_tokens == 0 {
                error == AutoGazeError::EmptyPyramidTokens
            } else {
                channels == 0 && error == AutoGazeError::EmptyPyramidChannels
            },
        },
{
    if total_tokens == 0 {
        return Err(AutoGazeError::EmptyPyramidTokens);
    }
    if channels == 0 {
        return Err(AutoGazeError::EmptyPyramidChannels);
    }
    Ok(min_usize(max_usize(max_tokens, 1), total_tokens))
}

} // verus!
