//! Clips of RGBA frames and the values that the model takes from them.
//!
//! The model's input holds, frame by frame, a red, a green and a blue plane of normalized values.
//! Alpha is dropped. Frames are brought to the model's size either by resizing them as a whole or,
//! in the tiled modes, later on.
use crate::arith::max_usize;
use crate::error::AutoGazeError;
use crate::ieee::{
    lemma_double_product, lemma_double_quotient, lemma_whole_doubles_exact, Binary32, Binary64,
};
use crate::tiles::AutoGazeInferenceMode;
use crate::trace::{at_least_one, single, ONE_BITS};
use vstd::prelude::*;
use vstd::slice::slice_subrange;

verus! {

/// The bits of the mean of the red channel, 0.485.
pub const RED_MEAN_BITS: u32 = 0x3ef8_51ec;

/// The bits of the mean of the green channel, 0.456.
pub const GREEN_MEAN_BITS: u32 = 0x3ee9_78d5;

/// The bits of the mean of the blue channel, 0.406.
pub const BLUE_MEAN_BITS: u32 = 0x3ecf_df3b;

/// The bits of the deviation of the red channel, 0.229.
pub const RED_STD_BITS: u32 = 0x3e6a_7efa;

/// The bits of the deviation of the green channel, 0.224.
pub const GREEN_STD_BITS: u32 = 0x3e65_6042;

/// The bits of the deviation of the blue channel, 0.225.
pub const BLUE_STD_BITS: u32 = 0x3e66_6666;

/// The bits of the factor that brings bytes to `0..=2`, 1 / 127.5.
pub const RESCALE_FACTOR_BITS: u32 = 0x3c00_8081;

/// The length of the shorter side of a resized frame.
pub const AUTO_GAZE_PROCESSOR_SHORT_EDGE: usize = 224;

/// The longest side that can be resized to any other.
pub const MAX_RESIZE_SIDE: usize = 0x40_0000;

/// The longest side that can be resized to a third of itself.
pub const MAX_REDUCED_SIDE: usize = 0x100_0000;

/// The longest side that any side four times as long can be resized to.
pub const MAX_SMALL_SIDE: usize = 0x8_0000;

/// The shape of a clip of planes of values.
#[derive(Clone, Copy, Debug, PartialEq, Eq, Structural)]
pub struct AutoGazeClipShape {
    pub clip_len: usize,
    pub channels: usize,
    pub height: usize,
    pub width: usize,
}

impl AutoGazeClipShape {
    pub fn new(clip_len: usize, channels: usize, height: usize, width: usize) -> (r:
        AutoGazeClipShape)
        ensures
            r == (AutoGazeClipShape { clip_len, channels, height, width }),
    {
        AutoGazeClipShape { clip_len, channels, height, width }
    }

    /// The product of all dimensions.
    pub open spec fn volume(self) -> nat {
        self.clip_len as nat * self.channels as nat * self.height as nat * self.width as nat
    }

    /// Whether the product of the dimensions can be formed from left to right.
    pub open spec fn fits(self) -> bool {
        &&& self.clip_len * self.channels <= usize::MAX
        &&& self.clip_len * self.channels * self.height <= usize::MAX
        &&& self.volume() <= usize::MAX
    }

    pub fn num_values(&self) -> (r: usize)
        requires
            self.fits(),
        ensures
            r == self.volume(),
    {
        self.clip_len * self.channels * self.height * self.width
    }

    /// Refuses a number of values other than the shape's.
    pub fn check_values(&self, got: usize) -> (r: Result<(), AutoGazeError>)
        requires
            self.fits(),
        ensures
            match r {
                Ok(_) => got == self.volume(),
                Err(error) => got != self.volume() && error == (AutoGazeError::FrameValues {
                    expected: self.volume() as usize,
                    clip_len: self.clip_len,
                    channels: self.channels,
                    height: self.height,
                    width: self.width,
                    got,
                }),
            },
    {
        let expected: usize = self.num_values();
        if got == expected {
            Ok(())
        } else {
            Err(
                AutoGazeError::FrameValues {
                    expected,
                    clip_len: self.clip_len,
                    channels: self.channels,
                    height: self.height,
                    width: self.width,
                    got,
                },
            )
        }
    }
}

/// The shape of a clip of RGBA frames.
#[derive(Clone, Copy, Debug, PartialEq, Eq, Structural)]
pub struct AutoGazeRgbaClipShape {
    pub clip_len: usize,
    pub height: usize,
    pub width: usize,
}

impl AutoGazeRgbaClipShape {
    pub fn new(clip_len: usize, height: usize, width: usize) -> (r: AutoGazeRgbaClipShape)
        ensures
            r == (AutoGazeRgbaClipShape { clip_len, height, width }),
    {
        AutoGazeRgbaClipShape { clip_len, height, width }
    }

    /// The pixels of a frame.
    pub open spec fn pixels(self) -> nat {
        self.width as nat * self.height as nat
    }

    /// The bytes of a frame.
    pub open spec fn frame_bytes(self) -> nat {
        self.pixels() * 4
    }

    /// The bytes of the clip.
    pub open spec fn bytes(self) -> nat {
        self.frame_bytes() * self.clip_len as nat
    }

    pub open spec fn empty(self) -> bool {
        self.width == 0 || self.height == 0 || self.clip_len == 0
    }

    /// The error for a clip with a wrong number of bytes.
    pub open spec fn bytes_error(self, got: usize) -> AutoGazeError {
        AutoGazeError::ClipBytes {
            expected: self.bytes() as usize,
            frames: self.clip_len,
            width: self.width,
            height: self.height,
            got,
        }
    }

    /// What is wrong with a clip of this shape that holds `got` bytes.
    pub open spec fn flaw(self, got: usize) -> Option<AutoGazeError> {
        if self.empty() {
            Some(AutoGazeError::EmptyRgbaClip)
        } else if self.pixels() > usize::MAX {
            Some(AutoGazeError::RgbaClipDimensionsOverflow)
        } else if self.bytes() > usize::MAX {
            Some(AutoGazeError::RgbaClipBytesOverflow)
        } else if got != self.bytes() {
            Some(self.bytes_error(got))
        } else {
            None
        }
    }

    fn bytes_mismatch(&self, expected: usize, got: usize) -> (r: AutoGazeError)
        requires
            expected == self.bytes(),
        ensures
            r == self.bytes_error(got),
    {
        AutoGazeError::ClipBytes {
            expected,
            frames: self.clip_len,
            width: self.width,
            height: self.height,
            got,
        }
    }
}

/// A product, where it fits.
fn product(a: usize, b: usize) -> (r: Option<usize>)
    ensures
        match r {
            Some(p) => p == a * b,
            None => a * b > usize::MAX,
        },
{
    a.checked_mul(b)
}

/// The bits of a channel's mean.
pub open spec fn mean_bits(channel: nat) -> u32 {
    if channel == 0 {
        RED_MEAN_BITS
    } else if channel == 1 {
        GREEN_MEAN_BITS
    } else {
        BLUE_MEAN_BITS
    }
}

/// The bits of a channel's deviation.
pub open spec fn std_bits(channel: nat) -> u32 {
    if channel == 0 {
        RED_STD_BITS
    } else if channel == 1 {
        GREEN_STD_BITS
    } else {
        BLUE_STD_BITS
    }
}

/// The normalized value of a byte of a channel.
pub open spec fn processor_value(value: u8, channel: nat) -> Binary32 {
    Binary32::of_nat(value as nat).times(single(RESCALE_FACTOR_BITS)).minus(single(ONE_BITS)).minus(
        single(mean_bits(channel)),
    ).over(single(std_bits(channel)))
}

pub fn autogaze_processor_value(value: u8, channel: usize) -> (r: Binary32)
    requires
        channel < 3,
    ensures
        r == processor_value(value, channel as nat),
{
    let rescaled: Binary32 = Binary32::from_usize(value as usize).times(
        single(RESCALE_FACTOR_BITS),
    ).minus(single(ONE_BITS));
    if channel == 0 {
        rescaled.minus(single(RED_MEAN_BITS)).over(single(RED_STD_BITS))
    } else if channel == 1 {
        rescaled.minus(single(GREEN_MEAN_BITS)).over(single(GREEN_STD_BITS))
    } else {
        rescaled.minus(single(BLUE_MEAN_BITS)).over(single(BLUE_STD_BITS))
    }
}

/// Where the byte of a plane's pixel stands: planes go frame by frame, three a frame.
pub open spec fn byte_index(pixels: nat, plane: nat, pixel: nat) -> nat {
    ((plane / 3) * pixels + pixel) * 4 + plane % 3
}

/// The values of a clip, plane by plane.
pub open spec fn clip_values(rgba: Seq<u8>, shape: AutoGazeRgbaClipShape) -> Seq<Binary32> {
    let pixels = shape.pixels();
    Seq::new(
        shape.clip_len as nat * 3 * pixels,
        |i: int|
            processor_value(
                rgba[byte_index(pixels, i as nat / pixels, i as nat % pixels) as int],
                (i as nat / pixels) % 3,
            ),
    )
}

/// The values of a clip and their shape.
#[derive(Clone, Debug, PartialEq, Eq)]
pub struct AutoGazeClipTensor {
    pub shape: AutoGazeClipShape,
    pub values: Vec<Binary32>,
}

/// `r` is the values of a clip, or what is wrong with it.
pub open spec fn tensor_is(
    r: Result<AutoGazeClipTensor, AutoGazeError>,
    rgba: Seq<u8>,
    shape: AutoGazeRgbaClipShape,
) -> bool {
    match r {
        Ok(tensor) => {
            &&& shape.flaw(rgba.len() as usize) is None
            &&& tensor.shape == (AutoGazeClipShape {
                clip_len: shape.clip_len,
                channels: 3,
                height: shape.height,
                width: shape.width,
            })
            &&& tensor.values@ == clip_values(rgba, shape)
        },
        Err(error) => shape.flaw(rgba.len() as usize) == Some(error),
    }
}

/// The values of a clip of RGBA frames.
pub fn rgba_clip_to_tensor(rgba: &[u8], shape: AutoGazeRgbaClipShape) -> (r: Result<
    AutoGazeClipTensor,
    AutoGazeError,
>)
    ensures
        tensor_is(r, rgba@, shape),
{
    let got: usize = rgba.len();
    if shape.width == 0 || shape.height == 0 || shape.clip_len == 0 {
        return Err(AutoGazeError::EmptyRgbaClip);
    }
    let pixels: usize = match product(shape.width, shape.height) {
        Some(pixels) => pixels,
        None => {
            return Err(AutoGazeError::RgbaClipDimensionsOverflow);
        },
    };
    let expected: usize = match product(pixels, 4) {
        Some(frame) => match product(frame, shape.clip_len) {
            Some(bytes) => bytes,
            None => {
                return Err(AutoGazeError::RgbaClipBytesOverflow);
            },
        },
        None => {
            assert(shape.bytes() >= shape.frame_bytes()) by (nonlinear_arith)
                requires
                    shape.bytes() == shape.frame_bytes() * shape.clip_len,
                    shape.clip_len >= 1,
            ;
            return Err(AutoGazeError::RgbaClipBytesOverflow);
        },
    };
    if got != expected {
        return Err(shape.bytes_mismatch(expected, got));
    }
    let ghost whole = clip_values(rgba@, shape);
    let mut values: Vec<Binary32> = Vec::new();
    assert(pixels * 4 * shape.clip_len == (shape.clip_len * pixels) * 4) by (nonlinear_arith);
    assert(shape.clip_len * 3 * pixels == (shape.clip_len * pixels) * 3) by (nonlinear_arith);
    assert(pixels >= 1) by (nonlinear_arith)
        requires
            pixels == shape.width * shape.height,
            shape.width >= 1,
            shape.height >= 1,
    ;
    assert(shape.clip_len <= shape.clip_len * pixels) by (nonlinear_arith)
        requires
            pixels >= 1,
            shape.clip_len >= 0,
    ;
    let planes: usize = shape.clip_len * 3;
    let mut plane: usize = 0;
    assert(0 * pixels == 0) by (nonlinear_arith);
    while plane < planes
        invariant
            plane <= planes,
            planes == shape.clip_len * 3,
            pixels == shape.pixels(),
            pixels >= 1,
            rgba@.len() == pixels * 4 * shape.clip_len,
            rgba@.len() <= usize::MAX,
            whole == clip_values(rgba@, shape),
            whole.len() == planes * pixels,
            values@.len() == plane * pixels,
            forall|i: int| 0 <= i < values@.len() ==> #[trigger] values@[i] == whole[i],
        decreases planes - plane,
    {
        let frame: usize = plane / 3;
        let channel: usize = plane % 3;
        let mut pixel: usize = 0;
        while pixel < pixels
            invariant
                plane < planes,
                planes == shape.clip_len * 3,
                frame == plane / 3,
                channel == plane % 3,
                pixel <= pixels,
                pixels == shape.pixels(),
                pixels >= 1,
                rgba@.len() == pixels * 4 * shape.clip_len,
                rgba@.len() <= usize::MAX,
                whole == clip_values(rgba@, shape),
                whole.len() == planes * pixels,
                values@.len() == plane * pixels + pixel,
                forall|i: int| 0 <= i < values@.len() ==> #[trigger] values@[i] == whole[i],
            decreases pixels - pixel,
        {
            proof {
                crate::readout::lemma_cell_index(
                    frame as nat,
                    pixel as nat,
                    shape.clip_len as nat,
                    pixels as nat,
                );
                crate::readout::lemma_cell_index(
                    plane as nat,
                    pixel as nat,
                    planes as nat,
                    pixels as nat,
                );
                assert(pixels * 4 * shape.clip_len == (shape.clip_len * pixels) * 4)
                    by (nonlinear_arith);
                let i = plane * pixels + pixel;
                vstd::arithmetic::div_mod::lemma_fundamental_div_mod_converse(
                    i,
                    pixels as int,
                    plane as int,
                    pixel as int,
                );
                assert(whole[i] == processor_value(
                    rgba@[byte_index(pixels as nat, plane as nat, pixel as nat) as int],
                    (plane as nat) % 3,
                ));
            }
            let index: usize = (frame * pixels + pixel) * 4 + channel;
            values.push(autogaze_processor_value(rgba[index], channel));
            pixel = pixel + 1;
        }
        assert((plane + 1) * pixels == plane * pixels + pixels) by (nonlinear_arith);
        plane = plane + 1;
    }
    assert(values@ =~= whole);
    Ok(
        AutoGazeClipTensor {
            shape: AutoGazeClipShape::new(shape.clip_len, 3, shape.height, shape.width),
            values,
        },
    )
}

/// What is wrong with taking the last frame of a clip that holds `got` bytes.
pub open spec fn last_frame_flaw(shape: AutoGazeRgbaClipShape, got: usize) -> Option<
    AutoGazeError,
> {
    if shape.empty() {
        Some(AutoGazeError::EmptyRgbaClip)
    } else if shape.frame_bytes() > usize::MAX {
        Some(AutoGazeError::RgbaFrameBytesOverflow)
    } else if shape.bytes() > usize::MAX {
        Some(AutoGazeError::RgbaClipBytesOverflow)
    } else if got != shape.bytes() {
        Some(shape.bytes_error(got))
    } else {
        None
    }
}

/// The bytes of the last frame of a clip.
pub open spec fn last_frame(rgba: Seq<u8>, shape: AutoGazeRgbaClipShape) -> Seq<u8> {
    rgba.skip(rgba.len() - shape.frame_bytes())
}

/// The bytes of the last frame of a clip.
pub fn last_rgba_frame(rgba: &[u8], shape: AutoGazeRgbaClipShape) -> (r: Result<
    &[u8],
    AutoGazeError,
>)
    ensures
        match r {
            Ok(frame) => last_frame_flaw(shape, rgba@.len() as usize) is None && frame@
                == last_frame(rgba@, shape) && frame@.len() == shape.frame_bytes(),
            Err(error) => last_frame_flaw(shape, rgba@.len() as usize) == Some(error),
        },
{
    let got: usize = rgba.len();
    if shape.width == 0 || shape.height == 0 || shape.clip_len == 0 {
        return Err(AutoGazeError::EmptyRgbaClip);
    }
    let frame: usize = match product(shape.width, shape.height) {
        Some(pixels) => match product(pixels, 4) {
            Some(frame) => frame,
            None => {
                return Err(AutoGazeError::RgbaFrameBytesOverflow);
            },
        },
        None => {
            return Err(AutoGazeError::RgbaFrameBytesOverflow);
        },
    };
    let expected: usize = match product(frame, shape.clip_len) {
        Some(bytes) => bytes,
        None => {
            return Err(AutoGazeError::RgbaClipBytesOverflow);
        },
    };
    if got != expected {
        return Err(shape.bytes_mismatch(expected, got));
    }
    assert(frame <= expected) by (nonlinear_arith)
        requires
            expected == frame * shape.clip_len,
            shape.clip_len >= 1,
    ;
    let last: &[u8] = slice_subrange(rgba, expected - frame, expected);
    assert(last@ =~= last_frame(rgba@, shape));
    Ok(last)
}

/// `side` scaled by `target / given`, to the nearest whole number, at least one.
pub open spec fn scaled_side(side: u32, target: u32, given: u32) -> u32 {
    let scaled = Binary64::of_nat(side as nat).times(Binary64::of_nat(target as nat)).over(
        Binary64::of_nat(given as nat),
    );
    let whole = scaled.to_i64(scaled.round_int());
    if whole < 1 {
        1
    } else if whole > u32::MAX {
        u32::MAX
    } else {
        whole as u32
    }
}

fn scale_side(side: u32, target: u32, given: u32) -> (r: u32)
    ensures
        r == scaled_side(side, target, given),
{
    let scaled: Binary64 = Binary64::from_usize(side as usize).times(
        Binary64::from_usize(target as usize),
    ).over(Binary64::from_usize(given as usize));
    let whole: i64 = scaled.round_i64();
    if whole < 1 {
        1
    } else if whole > u32::MAX as i64 {
        u32::MAX
    } else {
        whole as u32
    }
}

pub open spec fn at_least_one_pixel(side: u32) -> u32 {
    if side == 0 {
        1
    } else {
        side
    }
}

fn one_pixel(side: u32) -> (r: u32)
    ensures
        r == at_least_one_pixel(side),
{
    if side == 0 {
        1
    } else {
        side
    }
}

/// The size that a frame is resized to: a side that is not given follows from the other, so that
/// the aspect is kept.
pub open spec fn resized_sides(
    width: u32,
    height: u32,
    target_width: Option<u32>,
    target_height: Option<u32>,
) -> (u32, u32) {
    let width = at_least_one_pixel(width);
    let height = at_least_one_pixel(height);
    match (target_width, target_height) {
        (Some(w), Some(h)) => (at_least_one_pixel(w), at_least_one_pixel(h)),
        (Some(w), None) => (
            at_least_one_pixel(w),
            scaled_side(height, at_least_one_pixel(w), width),
        ),
        (None, Some(h)) => (
            scaled_side(width, at_least_one_pixel(h), height),
            at_least_one_pixel(h),
        ),
        (None, None) => (width, height),
    }
}

pub fn resize_dimensions_preserving_aspect(
    width: u32,
    height: u32,
    target_width: Option<u32>,
    target_height: Option<u32>,
) -> (r: (u32, u32))
    ensures
        r == resized_sides(width, height, target_width, target_height),
{
    let width: u32 = one_pixel(width);
    let height: u32 = one_pixel(height);
    match (target_width, target_height) {
        (Some(w), Some(h)) => (one_pixel(w), one_pixel(h)),
        (Some(w), None) => (one_pixel(w), scale_side(height, one_pixel(w), width)),
        (None, Some(h)) => (scale_side(width, one_pixel(h), height), one_pixel(h)),
        (None, None) => (width, height),
    }
}

/// A frame on its side is resized to the same size on its side. Sides that are given are kept, but
/// for zero, which counts as one; no side is shorter than one; and with no side given the size
/// stays.
pub proof fn lemma_resize_keeps_given_sides(
    width: u32,
    height: u32,
    target_width: Option<u32>,
    target_height: Option<u32>,
)
    ensures
        ({
            let (w, h) = resized_sides(width, height, target_width, target_height);
            &&& resized_sides(height, width, target_height, target_width) == (h, w)
            &&& w >= 1
            &&& h >= 1
            &&& target_width is Some ==> w == at_least_one_pixel(target_width->0)
            &&& target_height is Some ==> h == at_least_one_pixel(target_height->0)
            &&& target_width is None && target_height is None ==> w == at_least_one_pixel(width)
                && h == at_least_one_pixel(height)
        }),
{
}

/// The aspect is kept exactly where it can be: if the width of a frame divides `target` times
/// its height, then with `target` as the width the height is that quotient, and
/// likewise on its side.
pub proof fn lemma_resize_keeps_aspect(width: u32, height: u32, target: u32, quotient: u32)
    requires
        width > 0,
        height > 0,
        target > 0,
        quotient > 0,
        quotient * width == height * target,
        height * target < 0x20_0000_0000_0000,
    ensures
        resized_sides(width, height, Some(target), None) == (target, quotient),
        resized_sides(height, width, None, Some(target)) == (quotient, target),
{
    lemma_double_product(height as nat, target as nat);
    assert(height as nat * target as nat == quotient as nat * width as nat);
    lemma_double_quotient(quotient as nat, width as nat);
    lemma_whole_doubles_exact(quotient as nat);
}

/// The height and width that bring the shorter side to a given length.
pub open spec fn processor_sides(height: nat, width: nat, shortest_edge: nat) -> (usize, usize) {
    let height = at_least_one(height);
    let width = at_least_one(width);
    let edge = at_least_one(shortest_edge);
    let shorter = if height <= width {
        height
    } else {
        width
    };
    if shorter == edge {
        (height as usize, width as usize)
    } else {
        let scale = Binary64::of_nat(edge).over(Binary64::of_nat(shorter));
        (scaled_edge(height, scale), scaled_edge(width, scale))
    }
}

/// `side` times `scale`, to the nearest whole number, at least one.
pub open spec fn scaled_edge(side: nat, scale: Binary64) -> usize {
    let scaled = Binary64::of_nat(side).times(scale);
    at_least_one(scaled.to_usize(scaled.round_int()) as nat) as usize
}

fn scale_edge(side: usize, scale: Binary64) -> (r: usize)
    ensures
        r == scaled_edge(side as nat, scale),
{
    max_usize(Binary64::from_usize(side).times(scale).round_usize(), 1)
}

pub fn processor_resize_dimensions(height: usize, width: usize, shortest_edge: usize) -> (r: (
    usize,
    usize,
))
    ensures
        r == processor_sides(height as nat, width as nat, shortest_edge as nat),
{
    let height: usize = max_usize(height, 1);
    let width: usize = max_usize(width, 1);
    let edge: usize = max_usize(shortest_edge, 1);
    let shorter: usize = if height <= width {
        height
    } else {
        width
    };
    if shorter == edge {
        return (height, width);
    }
    let scale: Binary64 = Binary64::from_usize(edge).over(Binary64::from_usize(shorter));
    (scale_edge(height, scale), scale_edge(width, scale))
}

/// What a triangle filter makes of RGBA pixels of a given size at another size.
pub uninterp spec fn triangle_resized(
    rgba: Seq<u8>,
    width: u32,
    height: u32,
    target_width: u32,
    target_height: u32,
) -> Seq<u8>;

/// Whether positions in single precision are fine enough to find, for every pixel of the target, a
/// pixel of the side with weight. They always are on short sides, and on longer ones where a pixel
/// of the target covers enough of them.
pub open spec fn side_fits(side: nat, target: nat) -> bool {
    ||| side <= MAX_RESIZE_SIDE
    ||| side <= MAX_REDUCED_SIDE && 3 * target <= side
    ||| target <= MAX_SMALL_SIDE && 4 * target <= side
}

/// Whether a frame can be resized: pixels with weight are found along both sides, and what has to
/// be held on the way fits in memory.
pub open spec fn can_resize(width: nat, height: nat, target_width: nat, target_height: nat) -> bool {
    &&& width <= u32::MAX
    &&& height <= u32::MAX
    &&& target_width <= u32::MAX
    &&& target_height <= u32::MAX
    &&& side_fits(width, target_width)
    &&& side_fits(height, target_height)
    &&& width * target_height * 16 <= isize::MAX
    &&& target_width * target_height * 4 <= isize::MAX
}

/// Calls `image::imageops::resize` with `FilterType::Triangle` on the image that
/// `image::RgbaImage::from_raw` makes of the bytes. There is no image if and only if the bytes are
/// too few; otherwise the result has four bytes for each pixel of the new size and depends on
/// nothing but the arguments. What the filter does to the pixels is only named. Sides are left out
/// on which the places of the pixels, computed in single precision, can be off by so much that no
/// pixel has weight: there the filter has nothing to divide by and panics.
#[verifier::external_body]
fn resize_triangle(
    rgba: &[u8],
    width: u32,
    height: u32,
    target_width: u32,
    target_height: u32,
) -> (r: Option<Vec<u8>>)
    requires
        can_resize(width as nat, height as nat, target_width as nat, target_height as nat),
    ensures
        match r {
            Some(resized) => {
                &&& rgba@.len() >= width as nat * height as nat * 4
                &&& resized@ == triangle_resized(
                    rgba@,
                    width,
                    height,
                    target_width,
                    target_height,
                )
                &&& resized@.len() == target_width as nat * target_height as nat * 4
            },
            None => rgba@.len() < width as nat * height as nat * 4,
        },
{
    let image = image::RgbaImage::from_raw(width, height, rgba.to_vec())?;
    let filter = image::imageops::FilterType::Triangle;
    let resized = image::imageops::resize(&image, target_width, target_height, filter);
    Some(resized.into_raw())
}

fn fits_side(side: usize, target: usize) -> (r: bool)
    ensures
        r == side_fits(side as nat, target as nat),
{
    side <= MAX_RESIZE_SIDE || (side <= MAX_REDUCED_SIDE && target <= side / 3) || (target
        <= MAX_SMALL_SIDE && target <= side / 4)
}

/// Whether a frame can be resized, as a test.
fn resize_fits(width: usize, height: usize, target_width: usize, target_height: usize) -> (r: bool)
    ensures
        r == can_resize(
            width as nat,
            height as nat,
            target_width as nat,
            target_height as nat,
        ),
{
    if width as u64 > u32::MAX as u64 || height as u64 > u32::MAX as u64 || target_width as u64
        > u32::MAX as u64 || target_height as u64 > u32::MAX as u64 {
        return false;
    }
    if !fits_side(width, target_width) || !fits_side(height, target_height) {
        return false;
    }
    assert(width * target_height * 16 <= 0xffff_ffff * 0xffff_ffff * 16) by (nonlinear_arith)
        requires
            0 <= width <= 0xffff_ffff,
            0 <= target_height <= 0xffff_ffff,
    ;
    assert(target_width * target_height * 4 <= 0xffff_ffff * 0xffff_ffff * 4) by (nonlinear_arith)
        requires
            0 <= target_width <= 0xffff_ffff,
            0 <= target_height <= 0xffff_ffff,
    ;
    assert(width * target_height <= 0xffff_ffff * 0xffff_ffff) by (nonlinear_arith)
        requires
            0 <= width <= 0xffff_ffff,
            0 <= target_height <= 0xffff_ffff,
    ;
    assert(target_width * target_height <= 0xffff_ffff * 0xffff_ffff) by (nonlinear_arith)
        requires
            0 <= target_width <= 0xffff_ffff,
            0 <= target_height <= 0xffff_ffff,
    ;
    (width as u128) * (target_height as u128) * 16 <= isize::MAX as u128 && (target_width as u128)
        * (target_height as u128) * 4 <= isize::MAX as u128
}

impl AutoGazeRgbaClipShape {
    /// The height and width of the resized frames.
    pub open spec fn resized(self) -> (usize, usize) {
        processor_sides(
            self.height as nat,
            self.width as nat,
            AUTO_GAZE_PROCESSOR_SHORT_EDGE as nat,
        )
    }

    /// The shape of the resized clip.
    pub open spec fn resized_shape(self) -> AutoGazeRgbaClipShape {
        AutoGazeRgbaClipShape {
            clip_len: self.clip_len,
            height: self.resized().0,
            width: self.resized().1,
        }
    }

    /// Whether the frames need no resizing.
    pub open spec fn is_resized(self) -> bool {
        self.resized_shape() == self
    }

    /// Whether the clip can be resized: the sizes that have to be formed can be formed, and the
    /// frames are not too large.
    pub open spec fn resizable(self) -> bool {
        let target = self.resized_shape();
        ||| self.is_resized()
        ||| self.frame_bytes() > usize::MAX
        ||| {
            &&& self.bytes() <= usize::MAX
            &&& target.frame_bytes() > usize::MAX || {
                &&& can_resize(
                    self.width as nat,
                    self.height as nat,
                    target.width as nat,
                    target.height as nat,
                )
                &&& target.bytes() <= usize::MAX
            }
        }
    }

    /// Whether the clip can be resized.
    pub fn can_be_resized(&self) -> (r: bool)
        ensures
            r == self.resizable(),
    {
        let (height, width): (usize, usize) = processor_resize_dimensions(
            self.height,
            self.width,
            AUTO_GAZE_PROCESSOR_SHORT_EDGE,
        );
        if height == self.height && width == self.width {
            return true;
        }
        match rgba_bytes(self.width, self.height) {
            None => true,
            Some(frame) => match product(frame, self.clip_len) {
                None => false,
                Some(_bytes) => match rgba_bytes(width, height) {
                    None => true,
                    Some(target) => match product(target, self.clip_len) {
                        None => false,
                        Some(_total) => resize_fits(self.width, self.height, width, height),
                    },
                },
            },
        }
    }

    /// The bytes of a frame of the clip.
    pub open spec fn frame_of(self, rgba: Seq<u8>, frame: int) -> Seq<u8> {
        rgba.subrange(frame * self.frame_bytes(), (frame + 1) * self.frame_bytes())
    }

    /// The bytes of the first `n` frames, resized.
    pub open spec fn resized_frames(self, rgba: Seq<u8>, n: nat) -> Seq<u8>
        decreases n,
    {
        if n == 0 {
            Seq::empty()
        } else {
            self.resized_frames(rgba, (n - 1) as nat) + triangle_resized(
                self.frame_of(rgba, n - 1),
                self.width as u32,
                self.height as u32,
                self.resized().1 as u32,
                self.resized().0 as u32,
            )
        }
    }

    /// The bytes of the clip, resized.
    pub open spec fn resized_bytes(self, rgba: Seq<u8>) -> Seq<u8> {
        self.resized_frames(rgba, self.clip_len as nat)
    }

    /// What is wrong with resizing a clip of `got` bytes.
    pub open spec fn resize_flaw(self, got: usize) -> Option<AutoGazeError> {
        if self.pixels() > usize::MAX {
            Some(AutoGazeError::RgbaClipDimensionsOverflow)
        } else if self.frame_bytes() > usize::MAX {
            Some(AutoGazeError::RgbaFrameBytesOverflow)
        } else if got != self.bytes() {
            Some(self.bytes_error(got))
        } else if self.resized_shape().frame_bytes() > usize::MAX {
            Some(AutoGazeError::ResizedFrameBytesOverflow)
        } else {
            None
        }
    }
}

/// The bytes of a frame, where they can be counted.
fn rgba_bytes(width: usize, height: usize) -> (r: Option<usize>)
    ensures
        match r {
            Some(bytes) => bytes == width as nat * height as nat * 4,
            None => width as nat * height as nat * 4 > usize::MAX,
        },
{
    match product(width, height) {
        Some(pixels) => product(pixels, 4),
        None => None,
    }
}

/// `r` is the values of a clip brought to the model's size, or what is wrong with it.
pub open spec fn processor_tensor_is(
    r: Result<AutoGazeClipTensor, AutoGazeError>,
    rgba: Seq<u8>,
    shape: AutoGazeRgbaClipShape,
) -> bool {
    if shape.is_resized() {
        tensor_is(r, rgba, shape)
    } else {
        match shape.resize_flaw(rgba.len() as usize) {
            Some(flaw) => r matches Err(error) && error == flaw,
            None => tensor_is(r, shape.resized_bytes(rgba), shape.resized_shape()),
        }
    }
}

/// Resizes every frame of a clip.
fn resize_clip(
    rgba: &[u8],
    shape: AutoGazeRgbaClipShape,
    frame_bytes: usize,
    height: usize,
    width: usize,
) -> (r: Vec<u8>)
    requires
        frame_bytes == shape.frame_bytes(),
        shape.resized() == (height, width),
        can_resize(shape.width as nat, shape.height as nat, width as nat, height as nat),
        rgba@.len() == shape.bytes(),
        shape.resized_shape().bytes() <= usize::MAX,
    ensures
        r@ == shape.resized_bytes(rgba@),
        r@.len() == shape.resized_shape().bytes(),
{
    let ghost target_bytes = shape.resized_shape().frame_bytes();
    let mut resized: Vec<u8> = Vec::new();
    let mut frame: usize = 0;
    assert(0 * target_bytes == 0) by (nonlinear_arith);
    assert(resized@ =~= shape.resized_frames(rgba@, 0));
    while frame < shape.clip_len
        invariant
            frame <= shape.clip_len,
            frame_bytes == shape.frame_bytes(),
            rgba@.len() == shape.bytes(),
            shape.resized() == (height, width),
            can_resize(shape.width as nat, shape.height as nat, width as nat, height as nat),
            target_bytes == shape.resized_shape().frame_bytes(),
            resized@ == shape.resized_frames(rgba@, frame as nat),
            resized@.len() == frame * target_bytes,
        decreases shape.clip_len - frame,
    {
        let total: usize = rgba.len();
        assert(0 <= frame * frame_bytes && (frame + 1) * frame_bytes == frame * frame_bytes
            + frame_bytes && (frame + 1) * frame_bytes <= total) by (nonlinear_arith)
            requires
                total == frame_bytes * shape.clip_len,
                frame + 1 <= shape.clip_len,
                frame_bytes >= 0,
                frame >= 0,
        ;
        let start: usize = frame * frame_bytes;
        let one: &[u8] = slice_subrange(rgba, start, start + frame_bytes);
        assert(one@ == shape.frame_of(rgba@, frame as int));
        assert(one@.len() == frame_bytes);
        match resize_triangle(
            one,
            shape.width as u32,
            shape.height as u32,
            width as u32,
            height as u32,
        ) {
            Some(bytes) => {
                let mut bytes: Vec<u8> = bytes;
                resized.append(&mut bytes);
            },
            None => {
                assert(false);
            },
        }
        assert((frame + 1) * target_bytes == frame * target_bytes + target_bytes)
            by (nonlinear_arith);
        frame = frame + 1;
    }
    assert(target_bytes * shape.clip_len == shape.clip_len * target_bytes) by (nonlinear_arith);
    resized
}

/// The values of a clip whose frames are resized so that their shorter side has the length that
/// the model expects.
pub fn rgba_clip_to_processor_tensor(rgba: &[u8], shape: AutoGazeRgbaClipShape) -> (r: Result<
    AutoGazeClipTensor,
    AutoGazeError,
>)
    requires
        shape.resizable(),
    ensures
        processor_tensor_is(r, rgba@, shape),
{
    let (height, width): (usize, usize) = processor_resize_dimensions(
        shape.height,
        shape.width,
        AUTO_GAZE_PROCESSOR_SHORT_EDGE,
    );
    if height == shape.height && width == shape.width {
        return rgba_clip_to_tensor(rgba, shape);
    }
    let got: usize = rgba.len();
    let pixels: usize = match product(shape.width, shape.height) {
        Some(pixels) => pixels,
        None => {
            return Err(AutoGazeError::RgbaClipDimensionsOverflow);
        },
    };
    let frame_bytes: usize = match product(pixels, 4) {
        Some(bytes) => bytes,
        None => {
            return Err(AutoGazeError::RgbaFrameBytesOverflow);
        },
    };
    let expected: usize = frame_bytes * shape.clip_len;
    if got != expected {
        return Err(shape.bytes_mismatch(expected, got));
    }
    let target: AutoGazeRgbaClipShape = AutoGazeRgbaClipShape::new(shape.clip_len, height, width);
    match rgba_bytes(width, height) {
        None => Err(AutoGazeError::ResizedFrameBytesOverflow),
        Some(_bytes) => {
            let resized: Vec<u8> = resize_clip(rgba, shape, frame_bytes, height, width);
            rgba_clip_to_tensor(&resized, target)
        },
    }
}

/// `r` is the values of a clip in a given mode, or what is wrong with it.
pub open spec fn inference_tensor_is(
    r: Result<AutoGazeClipTensor, AutoGazeError>,
    rgba: Seq<u8>,
    shape: AutoGazeRgbaClipShape,
    mode: AutoGazeInferenceMode,
) -> bool {
    if mode is ResizeToModelInput {
        processor_tensor_is(r, rgba, shape)
    } else {
        tensor_is(r, rgba, shape)
    }
}

/// The values of a clip: resized where the mode resizes whole frames, as they are in tiled modes.
pub fn rgba_clip_to_inference_tensor(
    rgba: &[u8],
    shape: AutoGazeRgbaClipShape,
    mode: AutoGazeInferenceMode,
) -> (r: Result<AutoGazeClipTensor, AutoGazeError>)
    requires
        mode is ResizeToModelInput ==> shape.resizable(),
    ensures
        inference_tensor_is(r, rgba@, shape, mode),
{
    match mode.normalized() {
        AutoGazeInferenceMode::ResizeToModelInput => rgba_clip_to_processor_tensor(rgba, shape),
        _ => rgba_clip_to_tensor(rgba, shape),
    }
}

/// A clip that is ready for the model, and which of its frames is the current one.
#[derive(Clone, Debug, PartialEq, Eq)]
pub struct AutoGazePreparedRun {
    pub video: AutoGazeClipTensor,
    pub mode: AutoGazeInferenceMode,
    pub frame_index: usize,
    pub model_frames: usize,
}

/// The values that a run takes, without what surrounds them.
pub open spec fn prepared_video(r: Result<AutoGazePreparedRun, AutoGazeError>) -> Result<
    AutoGazeClipTensor,
    AutoGazeError,
> {
    match r {
        Ok(run) => Ok(run.video),
        Err(error) => Err(error),
    }
}

/// The shape of one frame of a clip.
pub open spec fn one_frame(shape: AutoGazeRgbaClipShape) -> AutoGazeRgbaClipShape {
    AutoGazeRgbaClipShape { clip_len: 1, height: shape.height, width: shape.width }
}

/// Prepares a clip. With a streaming cache only the last frame is run, since the cache holds the
/// ones before; without, all frames are run and the last one is the current one.
pub fn prepare_rgba_clip_for_trace(
    rgba: &[u8],
    shape: AutoGazeRgbaClipShape,
    mode: AutoGazeInferenceMode,
    streaming_cache: bool,
) -> (r: Result<AutoGazePreparedRun, AutoGazeError>)
    requires
        mode is ResizeToModelInput ==> (if streaming_cache {
            one_frame(shape).resizable()
        } else {
            shape.resizable()
        }),
    ensures
        r matches Ok(run) ==> run.mode == mode && run.model_frames == (if streaming_cache {
            1
        } else {
            shape.clip_len
        }) && run.frame_index == (if streaming_cache || shape.clip_len == 0 {
            0
        } else {
            shape.clip_len - 1
        }),
        if streaming_cache {
            match last_frame_flaw(shape, rgba@.len() as usize) {
                Some(flaw) => r matches Err(error) && error == flaw,
                None => inference_tensor_is(
                    prepared_video(r),
                    last_frame(rgba@, shape),
                    one_frame(shape),
                    mode,
                ),
            }
        } else {
            inference_tensor_is(prepared_video(r), rgba@, shape, mode)
        },
{
    if streaming_cache {
        let frame: &[u8] = match last_rgba_frame(rgba, shape) {
            Ok(frame) => frame,
            Err(error) => {
                return Err(error);
            },
        };
        let single_frame: AutoGazeRgbaClipShape = AutoGazeRgbaClipShape::new(
            1,
            shape.height,
            shape.width,
        );
        return match rgba_clip_to_inference_tensor(frame, single_frame, mode) {
            Ok(video) => Ok(
                AutoGazePreparedRun { video, mode, frame_index: 0, model_frames: 1 },
            ),
            Err(error) => Err(error),
        };
    }
    match rgba_clip_to_inference_tensor(rgba, shape, mode) {
        Ok(video) => Ok(
            AutoGazePreparedRun {
                video,
                mode,
                frame_index: if shape.clip_len > 0 {
                    shape.clip_len - 1
                } else {
                    0
                },
                model_frames: shape.clip_len,
            },
        ),
        Err(error) => Err(error),
    }
}

/// Brings an RGBA frame to a size; a side that is not given follows from the other. A frame that
/// has the size already is handed back as it is.
pub fn resize_rgba_frame_to_dimensions(
    frame: Vec<u8>,
    width: u32,
    height: u32,
    target_width: Option<u32>,
    target_height: Option<u32>,
) -> (r: (Vec<u8>, u32, u32))
    requires
        frame@.len() == width as nat * height as nat * 4,
        ({
            let (w, h) = resized_sides(width, height, target_width, target_height);
            (w, h) == (width, height) || can_resize(
                width as nat,
                height as nat,
                w as nat,
                h as nat,
            )
        }),
    ensures
        (r.1, r.2) == resized_sides(width, height, target_width, target_height),
        r.0@ == (if r.1 == width && r.2 == height {
            frame@
        } else {
            triangle_resized(frame@, width, height, r.1, r.2)
        }),
        r.0@.len() == r.1 as nat * r.2 as nat * 4,
{
    let (w, h): (u32, u32) = resize_dimensions_preserving_aspect(
        width,
        height,
        target_width,
        target_height,
    );
    if w == width && h == height {
        return (frame, w, h);
    }
    match resize_triangle(&frame, width, height, w, h) {
        Some(resized) => (resized, w, h),
        None => {
            assert(false);
            (frame, w, h)
        },
    }
}

/// What is wrong with asking for a frame of a video.
pub fn check_frame_index(frame_index: usize, frames: usize) -> (r: Result<(), AutoGazeError>)
    ensures
        match r {
            Ok(_) => frame_index < frames,
            Err(error) => frame_index >= frames && error == (AutoGazeError::FrameIndexOutOfBounds {
                index: frame_index,
                frames,
            }),
        },
{
    if frame_index < frames {
        Ok(())
    } else {
        Err(AutoGazeError::FrameIndexOutOfBounds { index: frame_index, frames })
    }
}

/// The last frame by itself has the values that it has at the end of its clip.
pub proof fn lemma_last_frame_values(rgba: Seq<u8>, shape: AutoGazeRgbaClipShape)
    requires
        rgba.len() <= usize::MAX,
        shape.flaw(rgba.len() as usize) is None,
    ensures
        clip_values(last_frame(rgba, shape), one_frame(shape)) == clip_values(rgba, shape).skip(
            (shape.clip_len - 1) * 3 * shape.pixels(),
        ),
{
    let pixels = shape.pixels() as int;
    let earlier = shape.clip_len - 1;
    let whole = clip_values(rgba, shape);
    let last = clip_values(last_frame(rgba, shape), one_frame(shape));
    assert(pixels >= 1) by (nonlinear_arith)
        requires
            pixels == shape.width * shape.height,
            shape.width >= 1,
            shape.height >= 1,
    ;
    assert(shape.clip_len * 3 * pixels == earlier * 3 * pixels + 3 * pixels) by (nonlinear_arith)
        requires
            shape.clip_len == earlier + 1,
    ;
    assert(pixels * 4 * shape.clip_len == earlier * pixels * 4 + pixels * 4) by (nonlinear_arith)
        requires
            shape.clip_len == earlier + 1,
    ;
    assert(earlier * pixels >= 0) by (nonlinear_arith)
        requires
            earlier >= 0,
            pixels >= 1,
    ;
    assert forall|i: int| 0 <= i < 3 * pixels implies #[trigger] last[i] == whole[earlier * 3
        * pixels + i] by {
        let plane = i / pixels;
        let pixel = i % pixels;
        vstd::arithmetic::div_mod::lemma_fundamental_div_mod(i, pixels);
        assert(0 <= plane < 3) by (nonlinear_arith)
            requires
                i == pixels * plane + pixel,
                0 <= pixel < pixels,
                0 <= i < 3 * pixels,
        ;
        let j = earlier * 3 * pixels + i;
        assert(j == (earlier * 3 + plane) * pixels + pixel) by (nonlinear_arith)
            requires
                j == earlier * 3 * pixels + i,
                i == pixels * plane + pixel,
        ;
        vstd::arithmetic::div_mod::lemma_fundamental_div_mod_converse(
            j,
            pixels,
            earlier * 3 + plane,
            pixel,
        );
        assert(0 <= j < whole.len());
        assert((earlier * 3 + plane) / 3 == earlier);
        assert((earlier * 3 + plane) % 3 == plane);
        assert(plane / 3 == 0 && plane % 3 == plane);
        assert(0 * pixels == 0) by (nonlinear_arith);
        let near = byte_index(pixels as nat, plane as nat, pixel as nat) as int;
        let far = byte_index(pixels as nat, (earlier * 3 + plane) as nat, pixel as nat) as int;
        assert(near == pixel * 4 + plane);
        assert(far == (earlier * pixels + pixel) * 4 + plane);
        assert(last_frame(rgba, shape)[near] == rgba[far]);
    }
    assert(one_frame(shape).pixels() == shape.pixels());
    assert(last.len() == 3 * pixels) by (nonlinear_arith)
        requires
            last.len() == 1nat * 3 * shape.pixels(),
            pixels == shape.pixels(),
    ;
    assert(last =~= whole.skip(earlier * 3 * pixels));
}

} // verus!
