//! Fixation points, the cells that they cover, and traces of fixations over frames.
use crate::ieee::Binary32;
use vstd::prelude::*;

verus! {

/// Zero.
pub const ZERO_BITS: u32 = 0;

/// One quarter.
pub const QUARTER_BITS: u32 = 0x3e80_0000;

/// One half.
pub const HALF_BITS: u32 = 0x3f00_0000;

/// One.
pub const ONE_BITS: u32 = 0x3f80_0000;

/// The smallest extent of a fixation cell, one millionth.
pub const MIN_CELL_EXTENT_BITS: u32 = 0x3586_37bd;

/// The number with the given bits.
pub open spec fn spec_single(bits: u32) -> Binary32 {
    Binary32 { bits }
}

/// The number with the given bits.
#[verifier::when_used_as_spec(spec_single)]
pub fn single(bits: u32) -> (r: Binary32)
    ensures
        r == spec_single(bits),
{
    Binary32 { bits }
}

/// A fixation: the centre of a cell in normalized image coordinates, its extent, how sure the
/// model is of it, and the side of the token grid it came from, zero where it came from none.
#[derive(Clone, Copy, Debug, PartialEq, Eq, Structural)]
pub struct FixationPoint {
    pub x: Binary32,
    pub y: Binary32,
    pub scale: Binary32,
    pub confidence: Binary32,
    pub width: Binary32,
    pub height: Binary32,
    pub grid: usize,
}

/// `v` moved into the unit interval.
pub open spec fn unit_clamped(v: Binary32) -> Binary32 {
    v.clamped(single(ZERO_BITS), single(ONE_BITS))
}

/// `v` moved between the smallest cell extent and one.
pub open spec fn extent_clamped(v: Binary32) -> Binary32 {
    v.clamped(single(MIN_CELL_EXTENT_BITS), single(ONE_BITS))
}

fn clamp_unit(v: Binary32) -> (r: Binary32)
    ensures
        r == unit_clamped(v),
{
    v.clamped(single(ZERO_BITS), single(ONE_BITS))
}

fn clamp_extent(v: Binary32) -> (r: Binary32)
    ensures
        r == extent_clamped(v),
{
    v.clamped(single(MIN_CELL_EXTENT_BITS), single(ONE_BITS))
}

impl FixationPoint {
    /// A point of a cell with the given extents, all moved into their ranges.
    pub open spec fn spec_with_extent(
        x: Binary32,
        y: Binary32,
        width: Binary32,
        height: Binary32,
        confidence: Binary32,
    ) -> FixationPoint {
        FixationPoint {
            x: unit_clamped(x),
            y: unit_clamped(y),
            scale: extent_clamped(width).larger(extent_clamped(height)),
            confidence: unit_clamped(confidence),
            width: extent_clamped(width),
            height: extent_clamped(height),
            grid: 0,
        }
    }

    /// The centre cell with no confidence, which stands for a missing fixation.
    pub open spec fn placeholder() -> FixationPoint {
        FixationPoint::spec_with_extent(
            single(HALF_BITS),
            single(HALF_BITS),
            single(QUARTER_BITS),
            single(QUARTER_BITS),
            single(ZERO_BITS),
        )
    }

    pub fn new(x: Binary32, y: Binary32, scale: Binary32, confidence: Binary32) -> (r: FixationPoint)
        ensures
            r == FixationPoint::spec_with_extent(x, y, scale, scale, confidence),
    {
        FixationPoint::with_extent(x, y, scale, scale, confidence)
    }

    pub fn with_extent(
        x: Binary32,
        y: Binary32,
        width: Binary32,
        height: Binary32,
        confidence: Binary32,
    ) -> (r: FixationPoint)
        ensures
            r == FixationPoint::spec_with_extent(x, y, width, height, confidence),
    {
        let width: Binary32 = clamp_extent(width);
        let height: Binary32 = clamp_extent(height);
        FixationPoint {
            x: clamp_unit(x),
            y: clamp_unit(y),
            scale: width.larger(height),
            confidence: clamp_unit(confidence),
            width,
            height,
            grid: 0,
        }
    }

    pub fn with_grid_extent(
        x: Binary32,
        y: Binary32,
        width: Binary32,
        height: Binary32,
        confidence: Binary32,
        grid: usize,
    ) -> (r: FixationPoint)
        ensures
            r == (FixationPoint {
                grid,
                ..FixationPoint::spec_with_extent(x, y, width, height, confidence)
            }),
    {
        let mut point: FixationPoint = FixationPoint::with_extent(x, y, width, height, confidence);
        point.grid = grid;
        point
    }

    /// The side of the token grid that the point came from.
    pub fn cell_grid(&self) -> (r: Option<usize>)
        ensures
            r == if self.grid > 0 {
                Some(self.grid)
            } else {
                None
            },
    {
        if self.grid > 0 {
            Some(self.grid)
        } else {
            None
        }
    }

    pub open spec fn spec_cell_width(self) -> Binary32 {
        extent_clamped(
            if single(ZERO_BITS).lt(self.width) {
                self.width
            } else {
                self.scale
            },
        )
    }

    pub open spec fn spec_cell_height(self) -> Binary32 {
        extent_clamped(
            if single(ZERO_BITS).lt(self.height) {
                self.height
            } else {
                self.scale
            },
        )
    }

    /// The width of the cell; the scale stands in where no width was given.
    pub fn cell_width(&self) -> (r: Binary32)
        ensures
            r == self.spec_cell_width(),
    {
        if single(ZERO_BITS).lt(self.width) {
            clamp_extent(self.width)
        } else {
            clamp_extent(self.scale)
        }
    }

    /// The height of the cell; the scale stands in where no height was given.
    pub fn cell_height(&self) -> (r: Binary32)
        ensures
            r == self.spec_cell_height(),
    {
        if single(ZERO_BITS).lt(self.height) {
            clamp_extent(self.height)
        } else {
            clamp_extent(self.scale)
        }
    }

    /// Half of a cell extent times `scale`, at most one half.
    pub open spec fn half_extent(extent: Binary32, scale: Binary32) -> Binary32 {
        extent.times(scale.larger(single(MIN_CELL_EXTENT_BITS))).times(single(HALF_BITS)).clamped(
            single(ZERO_BITS),
            single(HALF_BITS),
        )
    }

    pub open spec fn spec_scaled_bounds(self, scale: Binary32) -> FixationBounds {
        let half_width = FixationPoint::half_extent(self.spec_cell_width(), scale);
        let half_height = FixationPoint::half_extent(self.spec_cell_height(), scale);
        FixationBounds {
            x_min: unit_clamped(self.x.minus(half_width)),
            y_min: unit_clamped(self.y.minus(half_height)),
            x_max: unit_clamped(self.x.plus(half_width)),
            y_max: unit_clamped(self.y.plus(half_height)),
        }
    }

    /// The cell's bounds.
    pub fn bounds(&self) -> (r: FixationBounds)
        ensures
            r == self.spec_scaled_bounds(single(ONE_BITS)),
    {
        self.scaled_bounds(single(ONE_BITS))
    }

    /// The bounds of the cell grown by `scale` about its centre, cut to the image.
    pub fn scaled_bounds(&self, scale: Binary32) -> (r: FixationBounds)
        ensures
            r == self.spec_scaled_bounds(scale),
    {
        let scale: Binary32 = scale.larger(single(MIN_CELL_EXTENT_BITS));
        let half_width: Binary32 = self.cell_width().times(scale).times(single(HALF_BITS)).clamped(
            single(ZERO_BITS),
            single(HALF_BITS),
        );
        let half_height: Binary32 = self.cell_height().times(scale).times(single(HALF_BITS)).clamped(
            single(ZERO_BITS),
            single(HALF_BITS),
        );
        FixationBounds {
            x_min: clamp_unit(self.x.minus(half_width)),
            y_min: clamp_unit(self.y.minus(half_height)),
            x_max: clamp_unit(self.x.plus(half_width)),
            y_max: clamp_unit(self.y.plus(half_height)),
        }
    }
}

/// An axis-aligned box in normalized image coordinates.
#[derive(Clone, Copy, Debug, PartialEq, Eq, Structural)]
pub struct FixationBounds {
    pub x_min: Binary32,
    pub y_min: Binary32,
    pub x_max: Binary32,
    pub y_max: Binary32,
}

/// The fixations of one frame.
#[derive(Clone, Debug, PartialEq)]
pub struct FixationSet {
    pub points: Vec<FixationPoint>,
    pub stop_probability: Binary32,
}

/// `points` followed by placeholders up to `len`.
pub open spec fn padded_points(points: Seq<FixationPoint>, len: nat) -> Seq<FixationPoint> {
    if points.len() >= len {
        points
    } else {
        points + Seq::new((len - points.len()) as nat, |i: int| FixationPoint::placeholder())
    }
}

/// One where `k` is zero.
pub open spec fn at_least_one(k: nat) -> nat {
    if k == 0 {
        1
    } else {
        k
    }
}

impl FixationSet {
    /// Exactly `k` points, at least one: the first ones given, then placeholders.
    pub fn new(points: Vec<FixationPoint>, stop_probability: Binary32, k: usize) -> (r: FixationSet)
        ensures
            r.points@ == padded_points(
                if points@.len() > at_least_one(k as nat) {
                    points@.take(at_least_one(k as nat) as int)
                } else {
                    points@
                },
                at_least_one(k as nat),
            ),
            r.points@.len() == at_least_one(k as nat),
            r.stop_probability == unit_clamped(stop_probability),
    {
        let mut points: Vec<FixationPoint> = points;
        let len: usize = if k == 0 {
            1
        } else {
            k
        };
        points.truncate(len);
        FixationSet::with_min_len(points, stop_probability, k)
    }

    /// All points given, with placeholders up to `min_len`, at least one.
    pub fn with_min_len(
        points: Vec<FixationPoint>,
        stop_probability: Binary32,
        min_len: usize,
    ) -> (r: FixationSet)
        ensures
            r.points@ == padded_points(points@, at_least_one(min_len as nat)),
            r.stop_probability == unit_clamped(stop_probability),
    {
        let ghost given = points@;
        let mut points: Vec<FixationPoint> = points;
        let len: usize = if min_len == 0 {
            1
        } else {
            min_len
        };
        while points.len() < len
            invariant
                len == at_least_one(min_len as nat),
                points@.len() <= len || points@ == given,
                points@.len() >= given.len(),
                points@ == padded_points(given, points@.len()),
            decreases len - points.len(),
        {
            points.push(
                FixationPoint::new(
                    single(HALF_BITS),
                    single(HALF_BITS),
                    single(QUARTER_BITS),
                    single(ZERO_BITS),
                ),
            );
            assert(points@ =~= padded_points(given, points@.len()));
        }
        FixationSet { points, stop_probability: clamp_unit(stop_probability) }
    }

    /// The first point; the placeholder where there is none.
    pub fn top_point(&self) -> (r: FixationPoint)
        ensures
            r == if self.points@.len() > 0 {
                self.points@[0]
            } else {
                FixationPoint::placeholder()
            },
    {
        if self.points.len() > 0 {
            self.points[0]
        } else {
            FixationPoint::new(
                single(HALF_BITS),
                single(HALF_BITS),
                single(QUARTER_BITS),
                single(ZERO_BITS),
            )
        }
    }
}

/// The fixations of a clip, frame by frame.
#[derive(Clone, Debug, PartialEq)]
pub struct FrameFixationTrace {
    pub frames: Vec<FixationSet>,
}

impl FrameFixationTrace {
    pub fn new(frames: Vec<FixationSet>) -> (r: FrameFixationTrace)
        ensures
            r.frames == frames,
    {
        FrameFixationTrace { frames }
    }

    pub fn len(&self) -> (r: usize)
        ensures
            r == self.frames@.len(),
    {
        self.frames.len()
    }

    pub fn is_empty(&self) -> (r: bool)
        ensures
            r == (self.frames@.len() == 0),
    {
        self.frames.len() == 0
    }
}

/// Points that are padded come first and stay as they are; placeholders without confidence follow
/// until there are as many as asked for.
pub proof fn lemma_padding_follows(points: Seq<FixationPoint>, len: nat, i: int)
    requires
        0 <= i < padded_points(points, len).len(),
    ensures
        padded_points(points, len).len() == if points.len() < len {
            len
        } else {
            points.len()
        },
        i < points.len() ==> padded_points(points, len)[i] == points[i],
        i >= points.len() ==> padded_points(points, len)[i] == FixationPoint::placeholder(),
        !single(ZERO_BITS).lt(FixationPoint::placeholder().confidence),
{
}

} // verus!
