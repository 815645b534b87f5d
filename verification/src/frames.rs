//! Clips and queues of RGBA frames.
//!
//! A queue keeps the newest frames of a stream, all of one size, and packs them into clips. A
//! packed clip can hand its buffer back, to be filled again.
use crate::clip::{
    inference_tensor_is, last_frame, last_frame_flaw, last_rgba_frame, rgba_clip_to_inference_tensor,
    rgba_clip_to_tensor, tensor_is, AutoGazeClipTensor, AutoGazeRgbaClipShape,
};
use crate::error::AutoGazeError;
use crate::tiles::AutoGazeInferenceMode;
use crate::trace::at_least_one;
use std::collections::VecDeque;
use vstd::prelude::*;

verus! {

/// The shape of a batch of clips.
#[derive(Clone, Copy, Debug, PartialEq, Eq, Structural)]
pub struct AutoGazeTensorClipShape {
    pub batch: usize,
    pub clip_len: usize,
    pub channels: usize,
    pub height: usize,
    pub width: usize,
}

impl AutoGazeTensorClipShape {
    pub fn new(batch: usize, clip_len: usize, channels: usize, height: usize, width: usize) -> (r:
        AutoGazeTensorClipShape)
        ensures
            r == (AutoGazeTensorClipShape { batch, clip_len, channels, height, width }),
    {
        AutoGazeTensorClipShape { batch, clip_len, channels, height, width }
    }

    /// The product of all dimensions.
    pub open spec fn volume(self) -> nat {
        self.batch as nat * self.clip_len as nat * self.channels as nat * self.height as nat
            * self.width as nat
    }

    /// Whether the product of the dimensions can be formed from left to right.
    pub open spec fn fits(self) -> bool {
        &&& self.batch * self.clip_len <= usize::MAX
        &&& self.batch * self.clip_len * self.channels <= usize::MAX
        &&& self.batch * self.clip_len * self.channels * self.height <= usize::MAX
        &&& self.volume() <= usize::MAX
    }

    pub fn num_values(&self) -> (r: usize)
        requires
            self.fits(),
        ensures
            r == self.volume(),
    {
        self.batch * self.clip_len * self.channels * self.height * self.width
    }

    pub open spec fn nonzero(self) -> bool {
        self.batch > 0 && self.clip_len > 0 && self.channels > 0 && self.height > 0 && self.width
            > 0
    }

    pub fn is_nonzero(&self) -> (r: bool)
        ensures
            r == self.nonzero(),
    {
        self.batch > 0 && self.clip_len > 0 && self.channels > 0 && self.height > 0 && self.width
            > 0
    }

    /// Refuses shapes with an empty dimension.
    pub fn check(&self) -> (r: Result<(), AutoGazeError>)
        ensures
            match r {
                Ok(_) => self.nonzero(),
                Err(error) => !self.nonzero() && error == AutoGazeError::EmptyTensorClip,
            },
    {
        if self.is_nonzero() {
            Ok(())
        } else {
            Err(AutoGazeError::EmptyTensorClip)
        }
    }

    /// Refuses frames outside the clip.
    pub fn check_frame(&self, frame_index: usize) -> (r: Result<(), AutoGazeError>)
        ensures
            match r {
                Ok(_) => frame_index < self.clip_len,
                Err(error) => frame_index >= self.clip_len && error == (
                AutoGazeError::FrameIndexOutsideClip { index: frame_index, frames: self.clip_len }),
            },
    {
        if frame_index < self.clip_len {
            Ok(())
        } else {
            Err(AutoGazeError::FrameIndexOutsideClip { index: frame_index, frames: self.clip_len })
        }
    }
}

/// What is wrong with making a clip of `got` bytes.
pub open spec fn new_clip_flaw(shape: AutoGazeRgbaClipShape, got: usize) -> Option<AutoGazeError> {
    if shape.empty() {
        Some(AutoGazeError::EmptyRgbaClip)
    } else if shape.bytes() > usize::MAX {
        Some(AutoGazeError::RgbaClipBytesOverflow)
    } else if got != shape.bytes() {
        Some(AutoGazeError::RgbaBytes { expected: shape.bytes() as usize, got })
    } else {
        None
    }
}

/// RGBA frames end to end, as many bytes as the shape says.
#[derive(Debug, PartialEq, Eq)]
pub struct AutoGazeRgbaClip {
    rgba: Vec<u8>,
    shape: AutoGazeRgbaClipShape,
}

impl AutoGazeRgbaClip {
    #[verifier::type_invariant]
    spec fn filled(self) -> bool {
        !self.shape.empty() && self.rgba@.len() == self.shape.bytes()
    }

    /// The bytes of the clip.
    pub closed spec fn data(self) -> Seq<u8> {
        self.rgba@
    }

    /// The shape of the clip.
    pub closed spec fn dims(self) -> AutoGazeRgbaClipShape {
        self.shape
    }

    pub fn new(rgba: Vec<u8>, shape: AutoGazeRgbaClipShape) -> (r: Result<
        AutoGazeRgbaClip,
        AutoGazeError,
    >)
        ensures
            match r {
                Ok(clip) => new_clip_flaw(shape, rgba@.len() as usize) is None && clip.data()
                    == rgba@ && clip.dims() == shape,
                Err(error) => new_clip_flaw(shape, rgba@.len() as usize) == Some(error),
            },
    {
        let got: usize = rgba.len();
        if shape.clip_len == 0 || shape.height == 0 || shape.width == 0 {
            return Err(AutoGazeError::EmptyRgbaClip);
        }
        match clip_bytes(shape) {
            Some(expected) => {
                if got != expected {
                    return Err(AutoGazeError::RgbaBytes { expected, got });
                }
            },
            None => {
                return Err(AutoGazeError::RgbaClipBytesOverflow);
            },
        }
        Ok(AutoGazeRgbaClip { rgba, shape })
    }

    pub fn shape(&self) -> (r: AutoGazeRgbaClipShape)
        ensures
            r == self.dims(),
            !r.empty(),
            self.data().len() == r.bytes(),
    {
        proof {
            use_type_invariant(self);
        }
        self.shape
    }

    pub fn rgba(&self) -> (r: &[u8])
        ensures
            r@ == self.data(),
    {
        self.rgba.as_slice()
    }

    pub fn into_rgba(self) -> (r: Vec<u8>)
        ensures
            r@ == self.data(),
    {
        self.rgba
    }

    /// The values of the clip as it is.
    pub fn into_tensor_clip(self) -> (r: Result<AutoGazeClipTensor, AutoGazeError>)
        ensures
            tensor_is(r, self.data(), self.dims()),
    {
        rgba_clip_to_tensor(&self.rgba, self.shape)
    }

    /// The values of the clip in a given mode.
    pub fn into_inference_tensor_clip(self, mode: AutoGazeInferenceMode) -> (r: Result<
        AutoGazeClipTensor,
        AutoGazeError,
    >)
        requires
            mode is ResizeToModelInput ==> self.dims().resizable(),
        ensures
            inference_tensor_is(r, self.data(), self.dims(), mode),
    {
        rgba_clip_to_inference_tensor(&self.rgba, self.shape, mode)
    }
}

/// The bytes of a clip, where they can be counted.
fn clip_bytes(shape: AutoGazeRgbaClipShape) -> (r: Option<usize>)
    requires
        !shape.empty(),
    ensures
        match r {
            Some(bytes) => bytes == shape.bytes(),
            None => shape.bytes() > usize::MAX,
        },
{
    let ghost rows = shape.clip_len as int * shape.height as int;
    let ghost pixels = rows * shape.width as int;
    assert(shape.bytes() == pixels * 4) by (nonlinear_arith)
        requires
            shape.bytes() == ((shape.width as int * shape.height as int) * 4) * shape.clip_len,
            rows == shape.clip_len * shape.height,
            pixels == rows * shape.width,
    ;
    assert(pixels >= rows) by (nonlinear_arith)
        requires
            pixels == rows * shape.width,
            shape.width >= 1,
            rows == shape.clip_len * shape.height,
            shape.clip_len >= 1,
            shape.height >= 1,
    ;
    match shape.clip_len.checked_mul(shape.height) {
        Some(rows) => match rows.checked_mul(shape.width) {
            Some(pixels) => pixels.checked_mul(4),
            None => None,
        },
        None => None,
    }
}

/// Calls `Vec::capacity`, the number of bytes that a buffer can hold without growing. It is never
/// less than the buffer's length; beyond that it is up to the allocator.
#[verifier::external_body]
fn buffer_capacity(buffer: &Vec<u8>) -> (r: usize)
    ensures
        r >= buffer@.len(),
{
    buffer.capacity()
}

/// A packed clip of frames of a queue.
#[derive(Clone, Debug, PartialEq, Eq)]
pub struct AutoGazeRgbaFrameClip {
    width: usize,
    height: usize,
    clip_len: usize,
    rgba: Vec<u8>,
}

impl AutoGazeRgbaFrameClip {
    /// The bytes of the clip.
    pub closed spec fn data(self) -> Seq<u8> {
        self.rgba@
    }

    /// The shape of the clip.
    pub closed spec fn dims(self) -> AutoGazeRgbaClipShape {
        AutoGazeRgbaClipShape { clip_len: self.clip_len, height: self.height, width: self.width }
    }

    pub fn new(rgba: Vec<u8>, width: usize, height: usize, clip_len: usize) -> (r: Result<
        AutoGazeRgbaFrameClip,
        AutoGazeError,
    >)
        ensures
            ({
                let shape = AutoGazeRgbaClipShape { clip_len, height, width };
                match r {
                    Ok(clip) => new_clip_flaw(shape, rgba@.len() as usize) is None && clip.data()
                        == rgba@ && clip.dims() == shape,
                    Err(error) => new_clip_flaw(shape, rgba@.len() as usize) == Some(error),
                }
            }),
    {
        let shape: AutoGazeRgbaClipShape = AutoGazeRgbaClipShape::new(clip_len, height, width);
        match AutoGazeRgbaClip::new(rgba, shape) {
            Ok(clip) => Ok(
                AutoGazeRgbaFrameClip { width, height, clip_len, rgba: clip.into_rgba() },
            ),
            Err(error) => Err(error),
        }
    }

    fn from_validated(rgba: Vec<u8>, width: usize, height: usize, clip_len: usize) -> (r:
        AutoGazeRgbaFrameClip)
        ensures
            r.data() == rgba@,
            r.dims() == (AutoGazeRgbaClipShape { clip_len, height, width }),
    {
        AutoGazeRgbaFrameClip { width, height, clip_len, rgba }
    }

    pub fn width(&self) -> (r: usize)
        ensures
            r == self.dims().width,
    {
        self.width
    }

    pub fn height(&self) -> (r: usize)
        ensures
            r == self.dims().height,
    {
        self.height
    }

    pub fn clip_len(&self) -> (r: usize)
        ensures
            r == self.dims().clip_len,
    {
        self.clip_len
    }

    pub fn shape(&self) -> (r: AutoGazeRgbaClipShape)
        ensures
            r == self.dims(),
    {
        AutoGazeRgbaClipShape::new(self.clip_len, self.height, self.width)
    }

    pub fn rgba(&self) -> (r: &[u8])
        ensures
            r@ == self.data(),
    {
        self.rgba.as_slice()
    }

    /// How many bytes the clip's buffer can hold without growing: at least those that it holds.
    pub fn rgba_capacity(&self) -> (r: usize)
        ensures
            r >= self.data().len(),
    {
        buffer_capacity(&self.rgba)
    }

    /// The bytes of the last frame.
    pub fn last_frame_rgba(&self) -> (r: Result<&[u8], AutoGazeError>)
        ensures
            match r {
                Ok(frame) => last_frame_flaw(self.dims(), self.data().len() as usize) is None
                    && frame@ == last_frame(self.data(), self.dims()),
                Err(error) => last_frame_flaw(self.dims(), self.data().len() as usize) == Some(
                    error,
                ),
            },
    {
        last_rgba_frame(&self.rgba, self.shape())
    }

    pub fn into_rgba(self) -> (r: Vec<u8>)
        ensures
            r@ == self.data(),
    {
        self.rgba
    }

    /// The clip, checked once more.
    pub fn into_rgba_clip(self) -> (r: Result<AutoGazeRgbaClip, AutoGazeError>)
        ensures
            match r {
                Ok(clip) => new_clip_flaw(self.dims(), self.data().len() as usize) is None
                    && clip.data() == self.data() && clip.dims() == self.dims(),
                Err(error) => new_clip_flaw(self.dims(), self.data().len() as usize) == Some(error),
            },
    {
        let shape: AutoGazeRgbaClipShape = self.shape();
        AutoGazeRgbaClip::new(self.rgba, shape)
    }

    pub fn into_parts(self) -> (r: (Vec<u8>, usize, usize, usize))
        ensures
            r.0@ == self.data(),
            r.1 == self.dims().width,
            r.2 == self.dims().height,
            r.3 == self.dims().clip_len,
    {
        (self.rgba, self.width, self.height, self.clip_len)
    }
}

/// The bytes of a frame.
pub fn rgba_frame_byte_len(width: usize, height: usize) -> (r: Result<usize, AutoGazeError>)
    ensures
        match r {
            Ok(bytes) => bytes == width as nat * height as nat * 4,
            Err(error) => width as nat * height as nat * 4 > usize::MAX && error
                == AutoGazeError::QueueFrameBytesOverflow,
        },
{
    match width.checked_mul(height) {
        Some(pixels) => match pixels.checked_mul(4) {
            Some(bytes) => Ok(bytes),
            None => Err(AutoGazeError::QueueFrameBytesOverflow),
        },
        None => Err(AutoGazeError::QueueFrameBytesOverflow),
    }
}

/// One RGBA frame.
#[derive(Clone, Debug, PartialEq, Eq)]
pub struct RgbaFrame {
    pub width: u32,
    pub height: u32,
    pub rgba: Vec<u8>,
}

/// The bytes of the first `k` frames, end to end.
pub open spec fn joined(frames: Seq<RgbaFrame>, k: nat) -> Seq<u8>
    decreases k,
{
    if k == 0 {
        Seq::empty()
    } else {
        joined(frames, (k - 1) as nat) + frames[k - 1].rgba@
    }
}

/// What is wrong with the first of the first `k` frames that does not hold `bytes` bytes.
pub open spec fn frames_flaw(frames: Seq<RgbaFrame>, k: nat, bytes: nat) -> Option<AutoGazeError>
    decreases k,
{
    if k == 0 {
        None
    } else {
        match frames_flaw(frames, (k - 1) as nat, bytes) {
            Some(error) => Some(error),
            None => if frames[k - 1].rgba@.len() != bytes {
                Some(
                    AutoGazeError::QueueFrameBytes {
                        expected: bytes as usize,
                        width: frames[k - 1].width as usize,
                        height: frames[k - 1].height as usize,
                        got: frames[k - 1].rgba@.len() as usize,
                    },
                )
            } else {
                None
            },
        }
    }
}

proof fn lemma_flaw_stays(frames: Seq<RgbaFrame>, k: nat, n: nat, bytes: nat)
    requires
        k <= n,
        frames_flaw(frames, k, bytes) is Some,
    ensures
        frames_flaw(frames, n, bytes) == frames_flaw(frames, k, bytes),
    decreases n,
{
    if k < n {
        lemma_flaw_stays(frames, k, (n - 1) as nat, bytes);
    }
}

/// The last `n` entries of a list, or all of them.
pub open spec fn newest(frames: Seq<RgbaFrame>, n: nat) -> Seq<RgbaFrame> {
    if frames.len() > n {
        frames.skip(frames.len() - n)
    } else {
        frames
    }
}

/// The newest frames of a stream, and buffers to pack them into.
#[derive(Debug)]
pub struct AutoGazeRgbaFrameQueue {
    width: u32,
    height: u32,
    frames: VecDeque<RgbaFrame>,
    spare_clip_buffers: Vec<Vec<u8>>,
    max_spare_clip_buffers: usize,
}

impl Default for AutoGazeRgbaFrameQueue {
    fn default() -> (r: AutoGazeRgbaFrameQueue)
        ensures
            r.wf(),
            r.held() == Seq::<RgbaFrame>::empty(),
            r.size() == (0u32, 0u32),
            r.spares() == 0,
            r.max_spares() == 0,
    {
        AutoGazeRgbaFrameQueue::new(0)
    }
}

impl AutoGazeRgbaFrameQueue {
    /// The frames held, the oldest first.
    pub closed spec fn held(self) -> Seq<RgbaFrame> {
        self.frames@
    }

    /// The width and height of the frames held.
    pub closed spec fn size(self) -> (u32, u32) {
        (self.width, self.height)
    }

    /// The number of buffers that wait to be filled.
    pub closed spec fn spares(self) -> nat {
        self.spare_clip_buffers@.len()
    }

    /// The number of buffers that may wait.
    pub closed spec fn max_spares(self) -> nat {
        self.max_spare_clip_buffers as nat
    }

    /// All frames held have the queue's size, and no more buffers wait than may.
    pub open spec fn wf(self) -> bool {
        &&& forall|i: int|
            0 <= i < self.held().len() ==> ((#[trigger] self.held()[i]).width, self.held()[i].height)
                == self.size()
        &&& self.spares() <= self.max_spares()
    }

    pub fn new(max_spare_clip_buffers: usize) -> (r: AutoGazeRgbaFrameQueue)
        ensures
            r.wf(),
            r.held() == Seq::<RgbaFrame>::empty(),
            r.size() == (0u32, 0u32),
            r.spares() == 0,
            r.max_spares() == max_spare_clip_buffers,
    {
        AutoGazeRgbaFrameQueue {
            width: 0,
            height: 0,
            frames: VecDeque::new(),
            spare_clip_buffers: Vec::new(),
            max_spare_clip_buffers,
        }
    }

    /// Adds a frame and keeps the newest `max_len`, at least one. A frame of another size starts
    /// the queue over.
    pub fn push(&mut self, frame: RgbaFrame, max_len: usize)
        requires
            old(self).wf(),
        ensures
            final(self).wf(),
            final(self).size() == (frame.width, frame.height),
            final(self).held() == newest(
                (if old(self).size() == (frame.width, frame.height) {
                    old(self).held()
                } else {
                    Seq::empty()
                }).push(frame),
                at_least_one(max_len as nat),
            ),
            final(self).spares() == (if old(self).size() == (frame.width, frame.height) {
                old(self).spares()
            } else {
                0
            }),
            final(self).max_spares() == old(self).max_spares(),
    {
        let max_len: usize = if max_len == 0 {
            1
        } else {
            max_len
        };
        if self.width != frame.width || self.height != frame.height {
            self.reset();
            self.width = frame.width;
            self.height = frame.height;
        }
        let ghost earlier = self.frames@;
        let ghost pushed = earlier.push(frame);
        assert forall|i: int| 0 <= i < earlier.len() implies ((#[trigger] earlier[i]).width,
        earlier[i].height) == (self.width, self.height) by {
            assert(old(self).held()[i] == earlier[i]);
        }
        self.frames.push_back(frame);
        assert(newest(self.frames@, max_len as nat) == newest(pushed, max_len as nat));
        while self.frames.len() > max_len
            invariant
                max_len >= 1,
                self.frames@.len() >= 1,
                newest(self.frames@, max_len as nat) == newest(pushed, max_len as nat),
                forall|i: int|
                    0 <= i < self.frames@.len() ==> ((#[trigger] self.frames@[i]).width,
                    self.frames@[i].height) == (self.width, self.height),
                (self.width, self.height) == (frame.width, frame.height),
                self.spare_clip_buffers@.len() <= self.max_spare_clip_buffers,
                self.spares() == (if old(self).size() == (frame.width, frame.height) {
                    old(self).spares()
                } else {
                    0
                }),
                self.max_spares() == old(self).max_spares(),
            decreases self.frames@.len(),
        {
            let ghost before = self.frames@;
            let _oldest: Option<RgbaFrame> = self.frames.pop_front();
            assert(self.frames@ =~= before.skip(1));
            assert(newest(self.frames@, max_len as nat) =~= newest(before, max_len as nat));
            assert forall|i: int| 0 <= i < self.frames@.len() implies ((
            #[trigger] self.frames@[i]).width, self.frames@[i].height) == (
                self.width,
                self.height,
            ) by {
                assert(self.frames@[i] == before[i + 1]);
            }
        }
    }

    /// Forgets all frames and buffers.
    pub fn reset(&mut self)
        ensures
            final(self).wf(),
            final(self).held() == Seq::<RgbaFrame>::empty(),
            final(self).size() == (0u32, 0u32),
            final(self).spares() == 0,
            final(self).max_spares() == old(self).max_spares(),
    {
        self.frames.clear();
        self.spare_clip_buffers.clear();
        self.width = 0;
        self.height = 0;
    }

    /// The newest frame.
    pub fn latest(&self) -> (r: Option<&RgbaFrame>)
        ensures
            match r {
                Some(frame) => self.held().len() > 0 && *frame == self.held().last(),
                None => self.held().len() == 0,
            },
    {
        let n: usize = self.frames.len();
        if n == 0 {
            None
        } else {
            Some(&self.frames[n - 1])
        }
    }

    /// The number of bytes of the queue's frames.
    pub open spec fn frame_bytes(self) -> nat {
        self.size().0 as nat * self.size().1 as nat * 4
    }

    /// Packs the last `clip_len` frames.
    fn build_clip_from(&mut self, clip_len: usize) -> (r: Result<
        Option<AutoGazeRgbaFrameClip>,
        AutoGazeError,
    >)
        requires
            old(self).wf(),
            0 < clip_len <= old(self).held().len(),
        ensures
            final(self).wf(),
            final(self).held() == old(self).held(),
            final(self).size() == old(self).size(),
            final(self).max_spares() == old(self).max_spares(),
            old(self).built(*final(self), r, clip_len as nat),
    {
        let width: usize = self.width as usize;
        let height: usize = self.height as usize;
        let frame_bytes: usize = match rgba_frame_byte_len(width, height) {
            Ok(bytes) => bytes,
            Err(error) => {
                return Err(error);
            },
        };
        match frame_bytes.checked_mul(clip_len) {
            Some(_bytes) => {},
            None => {
                return Err(AutoGazeError::QueueClipBytesOverflow);
            },
        }
        let mut rgba: Vec<u8> = match self.spare_clip_buffers.pop() {
            Some(buffer) => buffer,
            None => Vec::new(),
        };
        rgba.clear();
        let total: usize = self.frames.len();
        let start: usize = total - clip_len;
        let ghost packed = self.frames@.skip(start as int);
        let mut k: usize = 0;
        assert(rgba@ =~= joined(packed, 0));
        while k < clip_len
            invariant
                k <= clip_len,
                total == self.frames@.len(),
                start == total - clip_len,
                0 < clip_len <= total,
                packed == self.frames@.skip(start as int),
                packed == newest(old(self).held(), clip_len as nat),
                self.held() == old(self).held(),
                self.size() == old(self).size(),
                self.max_spares() == old(self).max_spares(),
                self.wf(),
                self.spares() == (if old(self).spares() > 0 {
                    (old(self).spares() - 1) as nat
                } else {
                    0
                }),
                frame_bytes == old(self).frame_bytes(),
                frame_bytes * clip_len <= usize::MAX,
                width == self.width,
                height == self.height,
                rgba@ == joined(packed, k as nat),
                frames_flaw(packed, k as nat, frame_bytes as nat) is None,
            decreases clip_len - k,
        {
            let got: usize = self.frames[start + k].rgba.len();
            assert(self.frames@[start + k] == packed[k as int]);
            assert(self.held()[start + k] == packed[k as int]);
            if got != frame_bytes {
                proof {
                    assert(frames_flaw(packed, (k + 1) as nat, frame_bytes as nat) is Some);
                    lemma_flaw_stays(packed, (k + 1) as nat, clip_len as nat, frame_bytes as nat);
                }
                return Err(
                    AutoGazeError::QueueFrameBytes { expected: frame_bytes, width, height, got },
                );
            }
            append_bytes(&mut rgba, &self.frames[start + k].rgba);
            k = k + 1;
        }
        Ok(Some(AutoGazeRgbaFrameClip::from_validated(rgba, width, height, clip_len)))
    }

    /// `r` is the clip of the last `n` frames, or what is wrong with it; a waiting buffer is used up
    /// unless the size of the clip cannot be formed.
    pub open spec fn built(
        self,
        after: AutoGazeRgbaFrameQueue,
        r: Result<Option<AutoGazeRgbaFrameClip>, AutoGazeError>,
        n: nat,
    ) -> bool {
        let packed = newest(self.held(), n);
        if self.frame_bytes() > usize::MAX {
            &&& r matches Err(error) && error == AutoGazeError::QueueFrameBytesOverflow
            &&& after.spares() == self.spares()
        } else if self.frame_bytes() * n > usize::MAX {
            &&& r matches Err(error) && error == AutoGazeError::QueueClipBytesOverflow
            &&& after.spares() == self.spares()
        } else {
            &&& after.spares() == (if self.spares() > 0 {
                (self.spares() - 1) as nat
            } else {
                0
            })
            &&& match frames_flaw(packed, n, self.frame_bytes()) {
                Some(flaw) => r matches Err(error) && error == flaw,
                None => r matches Ok(Some(clip)) && clip.data() == joined(packed, n)
                    && clip.dims() == (AutoGazeRgbaClipShape {
                    clip_len: n as usize,
                    height: self.size().1 as usize,
                    width: self.size().0 as usize,
                }),
            }
        }
    }

    /// Packs all frames where the queue holds exactly `max_len` of them, at least one; `None`
    /// otherwise.
    pub fn build_clip(&mut self, max_len: usize) -> (r: Result<
        Option<AutoGazeRgbaFrameClip>,
        AutoGazeError,
    >)
        requires
            old(self).wf(),
        ensures
            final(self).wf(),
            final(self).held() == old(self).held(),
            final(self).size() == old(self).size(),
            final(self).max_spares() == old(self).max_spares(),
            if old(self).held().len() != at_least_one(max_len as nat) {
                r matches Ok(None) && final(self).spares() == old(self).spares()
            } else {
                old(self).built(*final(self), r, at_least_one(max_len as nat))
            },
    {
        let max_len: usize = if max_len == 0 {
            1
        } else {
            max_len
        };
        if self.frames.len() != max_len {
            return Ok(None);
        }
        self.build_clip_from(max_len)
    }

    /// Packs the newest frame; `None` where there is none.
    pub fn build_latest_clip(&mut self) -> (r: Result<Option<AutoGazeRgbaFrameClip>, AutoGazeError>)
        requires
            old(self).wf(),
        ensures
            final(self).wf(),
            final(self).held() == old(self).held(),
            final(self).size() == old(self).size(),
            final(self).max_spares() == old(self).max_spares(),
            if old(self).held().len() == 0 {
                r matches Ok(None) && final(self).spares() == old(self).spares()
            } else {
                old(self).built(*final(self), r, 1)
            },
    {
        if self.frames.len() == 0 {
            return Ok(None);
        }
        self.build_clip_from(1)
    }

    /// Takes a buffer back, unless enough are waiting.
    pub fn recycle_clip_buffer(&mut self, rgba: Vec<u8>)
        requires
            old(self).wf(),
        ensures
            final(self).wf(),
            final(self).held() == old(self).held(),
            final(self).size() == old(self).size(),
            final(self).max_spares() == old(self).max_spares(),
            final(self).spares() == (if old(self).spares() < old(self).max_spares() {
                old(self).spares() + 1
            } else {
                old(self).spares()
            }),
    {
        let mut rgba: Vec<u8> = rgba;
        rgba.clear();
        if self.spare_clip_buffers.len() < self.max_spare_clip_buffers {
            self.spare_clip_buffers.push(rgba);
        }
        assert(self.held() == old(self).held());
    }

    pub fn spare_clip_buffer_count(&self) -> (r: usize)
        ensures
            r == self.spares(),
    {
        self.spare_clip_buffers.len()
    }
}

/// Appends bytes to a buffer.
fn append_bytes(buffer: &mut Vec<u8>, bytes: &Vec<u8>)
    ensures
        final(buffer)@ == old(buffer)@ + bytes@,
{
    let mut i: usize = 0;
    assert(buffer@ =~= old(buffer)@ + bytes@.take(0));
    while i < bytes.len()
        invariant
            i <= bytes@.len(),
            buffer@ == old(buffer)@ + bytes@.take(i as int),
        decreases bytes@.len() - i,
    {
        buffer.push(bytes[i]);
        i = i + 1;
        assert(buffer@ =~= old(buffer)@ + bytes@.take(i as int));
    }
    assert(bytes@.take(i as int) =~= bytes@);
}

/// The frames that a queue holds after frames of one size are pushed, one after the other.
pub open spec fn held_after(start: Seq<RgbaFrame>, pushed: Seq<RgbaFrame>, n: nat) -> Seq<RgbaFrame>
    decreases pushed.len(),
{
    if pushed.len() == 0 {
        start
    } else {
        newest(held_after(start, pushed.drop_last(), n).push(pushed.last()), n)
    }
}

/// A queue that frames of one size are pushed to holds the newest of them, in order.
pub proof fn lemma_queue_is_window(pushed: Seq<RgbaFrame>, n: nat)
    requires
        n > 0,
    ensures
        held_after(Seq::empty(), pushed, n) == newest(pushed, n),
    decreases pushed.len(),
{
    if pushed.len() > 0 {
        lemma_queue_is_window(pushed.drop_last(), n);
        assert(newest(newest(pushed.drop_last(), n).push(pushed.last()), n) =~= newest(pushed, n));
    } else {
        assert(newest(pushed, n) =~= Seq::empty());
    }
}

/// Clips that wait to be run, the oldest first.
#[derive(Debug)]
pub struct RgbaClipInput {
    clips: VecDeque<AutoGazeRgbaClip>,
    mode: AutoGazeInferenceMode,
}

impl Default for RgbaClipInput {
    fn default() -> (r: RgbaClipInput)
        ensures
            r.waiting() == Seq::<AutoGazeRgbaClip>::empty(),
            r.run_mode() is ResizeToModelInput,
    {
        RgbaClipInput::new()
    }
}

impl RgbaClipInput {
    /// The clips that wait.
    pub closed spec fn waiting(self) -> Seq<AutoGazeRgbaClip> {
        self.clips@
    }

    /// The mode that clips are prepared for.
    pub closed spec fn run_mode(self) -> AutoGazeInferenceMode {
        self.mode
    }

    pub fn new() -> (r: RgbaClipInput)
        ensures
            r.waiting() == Seq::<AutoGazeRgbaClip>::empty(),
            r.run_mode() is ResizeToModelInput,
    {
        RgbaClipInput { clips: VecDeque::new(), mode: AutoGazeInferenceMode::ResizeToModelInput }
    }

    pub fn with_clip(self, clip: AutoGazeRgbaClip) -> (r: RgbaClipInput)
        ensures
            r.waiting() == self.waiting().push(clip),
            r.run_mode() == self.run_mode(),
    {
        let mut input: RgbaClipInput = self;
        input.push_clip(clip);
        input
    }

    pub fn with_inference_mode(self, mode: AutoGazeInferenceMode) -> (r: RgbaClipInput)
        ensures
            r.waiting() == self.waiting(),
            r.run_mode() == mode,
    {
        RgbaClipInput { clips: self.clips, mode }
    }

    pub fn push_clip(&mut self, clip: AutoGazeRgbaClip)
        ensures
            final(self).waiting() == old(self).waiting().push(clip),
            final(self).run_mode() == old(self).run_mode(),
    {
        self.clips.push_back(clip);
    }

    pub fn len(&self) -> (r: usize)
        ensures
            r == self.waiting().len(),
    {
        self.clips.len()
    }

    pub fn is_empty(&self) -> (r: bool)
        ensures
            r == (self.waiting().len() == 0),
    {
        self.clips.len() == 0
    }

    pub fn inference_mode(&self) -> (r: AutoGazeInferenceMode)
        ensures
            r == self.run_mode(),
    {
        self.mode
    }

    /// Whether the next clip can be prepared.
    pub fn next_fits(&self) -> (r: bool)
        ensures
            r == (self.waiting().len() > 0 && self.run_mode() is ResizeToModelInput
                ==> self.waiting()[0].dims().resizable()),
    {
        if self.clips.len() == 0 {
            return true;
        }
        match self.mode {
            AutoGazeInferenceMode::ResizeToModelInput => self.clips[0].shape().can_be_resized(),
            _ => true,
        }
    }

    /// Takes the oldest clip and prepares its values; `None` where no clip waits.
    pub fn next_clip(&mut self) -> (r: Result<Option<AutoGazeClipTensor>, AutoGazeError>)
        requires
            old(self).waiting().len() > 0 && old(self).run_mode() is ResizeToModelInput ==> old(
                self
            ).waiting()[0].dims().resizable(),
        ensures
            final(self).run_mode() == old(self).run_mode(),
            if old(self).waiting().len() == 0 {
                r matches Ok(None) && final(self).waiting() == old(self).waiting()
            } else {
                let clip = old(self).waiting()[0];
                &&& final(self).waiting() == old(self).waiting().skip(1)
                &&& r != Ok::<Option<AutoGazeClipTensor>, AutoGazeError>(None)
                &&& inference_tensor_is(
                    given(r),
                    clip.data(),
                    clip.dims(),
                    old(self).run_mode(),
                )
            },
    {
        match self.clips.pop_front() {
            Some(clip) => {
                assert(self.clips@ =~= old(self).clips@.skip(1));
                match clip.into_inference_tensor_clip(self.mode) {
                    Ok(tensor) => Ok(Some(tensor)),
                    Err(error) => Err(error),
                }
            },
            None => Ok(None),
        }
    }
}

/// A result whose value is there.
pub open spec fn given(r: Result<Option<AutoGazeClipTensor>, AutoGazeError>) -> Result<
    AutoGazeClipTensor,
    AutoGazeError,
> {
    match r {
        Ok(value) => Ok(value->0),
        Err(error) => Err(error),
    }
}

/// The newest frames are the last ones that came, as many as asked for where there are that many.
pub proof fn lemma_newest_are_last(frames: Seq<RgbaFrame>, n: nat, i: int)
    requires
        0 <= i < newest(frames, n).len(),
    ensures
        newest(frames, n).len() == if frames.len() < n {
            frames.len()
        } else {
            n
        },
        newest(frames, n)[newest(frames, n).len() - 1 - i] == frames[frames.len() - 1 - i],
{
}

/// Frames of one size, end to end: a byte of a frame lies behind all earlier frames.
pub proof fn lemma_joined_at(frames: Seq<RgbaFrame>, k: nat, bytes: nat, f: int, i: int)
    requires
        k <= frames.len(),
        frames_flaw(frames, k, bytes) is None,
        0 <= f < k,
        0 <= i < bytes,
    ensures
        joined(frames, k).len() == k * bytes,
        0 <= f * bytes + i < joined(frames, k).len(),
        frames[f].rgba@.len() == bytes,
        joined(frames, k)[f * bytes + i] == frames[f].rgba@[i],
    decreases k,
{
    let m = (k - 1) as nat;
    lemma_joined_len(frames, m, bytes);
    assert(m * bytes + bytes == k * bytes) by (nonlinear_arith)
        requires
            k == m + 1,
    ;
    assert(f * bytes >= 0 && (f < m ==> f * bytes + bytes <= m * bytes)) by (nonlinear_arith)
        requires
            f >= 0,
    ;
    if f < m {
        lemma_joined_at(frames, m, bytes, f, i);
    }
}

proof fn lemma_joined_len(frames: Seq<RgbaFrame>, k: nat, bytes: nat)
    requires
        k <= frames.len(),
        frames_flaw(frames, k, bytes) is None,
    ensures
        joined(frames, k).len() == k * bytes,
    decreases k,
{
    if k > 0 {
        lemma_joined_len(frames, (k - 1) as nat, bytes);
        let m = (k - 1) as nat;
        assert(m * bytes + bytes == k * bytes) by (nonlinear_arith)
            requires
                k == m + 1,
        ;
    } else {
        assert(0 * bytes == 0) by (nonlinear_arith);
    }
}

} // verus!
