//! Sparse readout: which tokens of a downstream image or video grid the fixations select.
use crate::error::AutoGazeError;
use crate::ieee::Binary32;
use crate::trace::{single, unit_clamped, FixationBounds, ONE_BITS, ZERO_BITS};
use vstd::prelude::*;

verus! {

/// The margin by which a region may touch a cell without selecting it, one millionth of a cell.
pub const GRID_BOUNDARY_EPSILON_BITS: u32 = 0x3586_37bd;

/// The smallest step above one, which is the smallest fixation scale.
pub const EPSILON_BITS: u32 = 0x3400_0000;

/// A downstream image-token grid.
#[derive(Clone, Copy, Debug, PartialEq, Eq, Structural)]
pub struct SparseReadoutGrid {
    pub height: usize,
    pub width: usize,
}

/// `n` is the square of `r`.
pub open spec fn is_root(n: nat, r: nat) -> bool {
    r * r == n
}

/// The smallest number whose square is not below `n`.
fn ceil_root(n: usize) -> (r: usize)
    requires
        n > 0,
    ensures
        r >= 1,
        r <= 0x1_0000_0000,
        (r - 1) * (r - 1) < n,
        n <= r * r,
{
    let target: u128 = n as u128;
    let mut lo: u64 = 1;
    let mut hi: u64 = 0x1_0000_0000;
    assert(0x1_0000_0000u64 * 0x1_0000_0000u64 >= 0xffff_ffff_ffff_ffff) by (nonlinear_arith);
    while lo < hi
        invariant
            1 <= lo <= hi <= 0x1_0000_0000,
            target == n,
            (lo - 1) * (lo - 1) < target,
            target <= hi * hi,
        decreases hi - lo,
    {
        let mid: u64 = lo + (hi - lo) / 2;
        assert(mid * mid <= 0x1_0000_0000 * 0x1_0000_0000) by (nonlinear_arith)
            requires
                0 <= mid <= 0x1_0000_0000,
        ;
        let m: u128 = mid as u128;
        if m * m >= target {
            hi = mid;
        } else {
            assert((mid + 1 - 1) * (mid + 1 - 1) == mid * mid);
            lo = mid + 1;
        }
    }
    proof {
        assert(lo <= n) by (nonlinear_arith)
            requires
                lo >= 1,
                (lo - 1) * (lo - 1) < n,
                n >= 1,
        ;
    }
    lo as usize
}

impl SparseReadoutGrid {
    /// The cells of the grid.
    pub open spec fn cells(self) -> nat {
        (self.height * self.width) as nat
    }

    /// The grid has no cells.
    pub open spec fn empty(self) -> bool {
        self.height == 0 || self.width == 0
    }

    pub fn new(height: usize, width: usize) -> (r: SparseReadoutGrid)
        ensures
            r == (SparseReadoutGrid { height, width }),
    {
        SparseReadoutGrid { height, width }
    }

    /// The square grid with the given number of cells.
    pub fn square_from_token_count(token_count: usize) -> (r: Result<
        SparseReadoutGrid,
        AutoGazeError,
    >)
        ensures
            match r {
                Ok(grid) => token_count > 0 && grid.height == grid.width && is_root(
                    token_count as nat,
                    grid.width as nat,
                ),
                Err(AutoGazeError::EmptyTokenCount) => token_count == 0,
                Err(AutoGazeError::TokenCountNotSquare) => token_count > 0 && forall|side: nat|
                    !is_root(token_count as nat, side),
                Err(_) => false,
            },
    {
        if token_count == 0 {
            return Err(AutoGazeError::EmptyTokenCount);
        }
        let width: usize = ceil_root(token_count);
        assert(0 <= width * width <= 0x1_0000_0000 * 0x1_0000_0000) by (nonlinear_arith)
            requires
                0 <= width <= 0x1_0000_0000,
        ;
        if (width as u128) * (width as u128) != token_count as u128 {
            assert forall|side: nat| !is_root(token_count as nat, side) by {
                if is_root(token_count as nat, side) {
                    if side < width {
                        assert(side * side <= (width - 1) * (width - 1)) by (nonlinear_arith)
                            requires
                                0 <= side <= width - 1,
                        ;
                    } else if side > width {
                        assert(side * side > width * width) by (nonlinear_arith)
                            requires
                                side > width >= 0,
                        ;
                    }
                }
            }
            return Err(AutoGazeError::TokenCountNotSquare);
        }
        Ok(SparseReadoutGrid { height: width, width })
    }

    pub fn token_count(&self) -> (r: usize)
        requires
            self.cells() <= usize::MAX,
        ensures
            r == self.cells(),
    {
        self.height * self.width
    }

    pub fn is_empty(&self) -> (r: bool)
        ensures
            r == self.empty(),
    {
        self.height == 0 || self.width == 0
    }

    /// The token of a cell, counted row by row.
    pub fn token_index(&self, row: usize, col: usize) -> (r: Option<usize>)
        requires
            self.cells() <= usize::MAX,
        ensures
            r == if row < self.height && col < self.width {
                Some((row * self.width + col) as usize)
            } else {
                None
            },
            r matches Some(token) ==> token < self.cells(),
    {
        if row < self.height && col < self.width {
            proof {
                lemma_cell_index(row as nat, col as nat, self.height as nat, self.width as nat);
            }
            Some(row * self.width + col)
        } else {
            None
        }
    }

    /// The rectangle of a cell.
    pub open spec fn cell_rect(self, row: nat, col: nat) -> SparseReadoutRect {
        let width = Binary32::of_nat(self.width as nat);
        let height = Binary32::of_nat(self.height as nat);
        SparseReadoutRect {
            x0: Binary32::of_nat(col).over(width),
            y0: Binary32::of_nat(row).over(height),
            x1: Binary32::of_nat(col + 1).over(width),
            y1: Binary32::of_nat(row + 1).over(height),
        }
    }

    /// The rectangle of a token's cell.
    pub open spec fn spec_token_rect(self, token: nat) -> Option<SparseReadoutRect> {
        if self.empty() || token >= self.cells() {
            None
        } else {
            Some(self.cell_rect(token / (self.width as nat), token % (self.width as nat)))
        }
    }

    /// The normalized rectangle of a token's cell.
    pub fn token_rect(&self, token: usize) -> (r: Option<SparseReadoutRect>)
        requires
            self.cells() <= usize::MAX,
        ensures
            r == self.spec_token_rect(token as nat),
    {
        if self.is_empty() || token >= self.token_count() {
            return None;
        }
        let row: usize = token / self.width;
        let col: usize = token % self.width;
        proof {
            vstd::arithmetic::div_mod::lemma_fundamental_div_mod(token as int, self.width as int);
            assert(row < self.height) by (nonlinear_arith)
                requires
                    token == self.width * row + col,
                    0 <= col,
                    token < self.height * self.width,
                    self.width > 0,
            ;
        }
        let width: Binary32 = Binary32::from_usize(self.width);
        let height: Binary32 = Binary32::from_usize(self.height);
        Some(
            SparseReadoutRect {
                x0: Binary32::from_usize(col).over(width),
                y0: Binary32::from_usize(row).over(height),
                x1: Binary32::from_usize(col + 1).over(width),
                y1: Binary32::from_usize(row + 1).over(height),
            },
        )
    }
}

/// A cell's index lies within the grid, and gives the cell back.
pub(crate) proof fn lemma_cell_index(row: nat, col: nat, height: nat, width: nat)
    requires
        row < height,
        col < width,
    ensures
        row * width + col < height * width,
        0 <= row * width <= height * width,
        (row * width + col) / width == row,
        (row * width + col) % width == col,
{
    assert(row * width + width <= height * width && 0 <= row * width) by (nonlinear_arith)
        requires
            row + 1 <= height,
            0 <= row,
            0 <= width,
    ;
    vstd::arithmetic::div_mod::lemma_fundamental_div_mod_converse(
        (row * width + col) as int,
        width as int,
        row as int,
        col as int,
    );
}

/// A downstream video-token grid: bins of frames, each with rows and columns of cells.
#[derive(Clone, Copy, Debug, PartialEq, Eq, Structural)]
pub struct SparseVideoReadoutGrid {
    pub temporal_bins: usize,
    pub height: usize,
    pub width: usize,
}

impl SparseVideoReadoutGrid {
    /// The cells of one bin.
    pub open spec fn bin_cells(self) -> nat {
        (self.height * self.width) as nat
    }

    /// The cells of the grid.
    pub open spec fn cells(self) -> nat {
        self.temporal_bins as nat * self.bin_cells()
    }

    /// The grid has no cells.
    pub open spec fn empty(self) -> bool {
        self.temporal_bins == 0 || self.height == 0 || self.width == 0
    }

    /// The token of a cell, counted bin by bin and row by row.
    pub open spec fn index_of(self, temporal_bin: int, row: int, col: int) -> int {
        (temporal_bin * self.height + row) * self.width + col
    }

    pub fn new(temporal_bins: usize, height: usize, width: usize) -> (r: SparseVideoReadoutGrid)
        ensures
            r == (SparseVideoReadoutGrid { temporal_bins, height, width }),
    {
        SparseVideoReadoutGrid { temporal_bins, height, width }
    }

    pub fn token_count(&self) -> (r: usize)
        requires
            self.cells() <= usize::MAX,
            self.temporal_bins * self.height <= usize::MAX,
        ensures
            r == self.cells(),
    {
        proof {
            assert(self.temporal_bins * self.height * self.width == self.temporal_bins * (
            self.height * self.width)) by (nonlinear_arith);
        }
        self.temporal_bins * self.height * self.width
    }

    pub fn tokens_per_temporal_bin(&self) -> (r: usize)
        requires
            self.bin_cells() <= usize::MAX,
        ensures
            r == self.bin_cells(),
    {
        self.height * self.width
    }

    pub fn is_empty(&self) -> (r: bool)
        ensures
            r == self.empty(),
    {
        self.temporal_bins == 0 || self.height == 0 || self.width == 0
    }

    /// The token of a cell.
    pub fn token_index(&self, temporal_bin: usize, row: usize, col: usize) -> (r: Option<usize>)
        requires
            self.cells() <= usize::MAX,
        ensures
            r == if temporal_bin < self.temporal_bins && row < self.height && col < self.width {
                Some(self.index_of(temporal_bin as int, row as int, col as int) as usize)
            } else {
                None
            },
            r matches Some(token) ==> token < self.cells() && token == self.index_of(
                temporal_bin as int,
                row as int,
                col as int,
            ),
    {
        if temporal_bin < self.temporal_bins && row < self.height && col < self.width {
            proof {
                lemma_video_index(*self, temporal_bin as int, row as int, col as int);
            }
            Some((temporal_bin * self.height + row) * self.width + col)
        } else {
            None
        }
    }

    /// The cell of a token: bin, row and column.
    pub open spec fn coords_of(self, token: nat) -> Option<(nat, nat, nat)> {
        if self.empty() || token >= self.cells() {
            None
        } else {
            let spatial = token % self.bin_cells();
            Some(
                (
                    token / self.bin_cells(),
                    spatial / (self.width as nat),
                    spatial % (self.width as nat),
                ),
            )
        }
    }

    /// The cell of a token: bin, row and column.
    pub fn token_coords(&self, token: usize) -> (r: Option<(usize, usize, usize)>)
        requires
            self.cells() <= usize::MAX,
        ensures
            match r {
                Some((t, row, col)) => self.coords_of(token as nat) == Some(
                    (t as nat, row as nat, col as nat),
                ) && t < self.temporal_bins && row < self.height && col < self.width,
                None => self.coords_of(token as nat) is None,
            },
    {
        if self.is_empty() {
            return None;
        }
        proof {
            lemma_bin_fits(*self);
        }
        let per_bin: usize = self.tokens_per_temporal_bin();
        if token >= self.token_count() {
            return None;
        }
        let temporal_bin: usize = token / per_bin;
        let spatial: usize = token % per_bin;
        let row: usize = spatial / self.width;
        let col: usize = spatial % self.width;
        proof {
            vstd::arithmetic::div_mod::lemma_fundamental_div_mod(token as int, per_bin as int);
            vstd::arithmetic::div_mod::lemma_fundamental_div_mod(
                spatial as int,
                self.width as int,
            );
            assert(temporal_bin < self.temporal_bins) by (nonlinear_arith)
                requires
                    token == per_bin * temporal_bin + spatial,
                    0 <= spatial,
                    token < self.temporal_bins * per_bin,
                    per_bin > 0,
            ;
            assert(row < self.height) by (nonlinear_arith)
                requires
                    spatial == self.width * row + col,
                    0 <= col,
                    spatial < per_bin,
                    per_bin == self.height * self.width,
                    self.width > 0,
            ;
        }
        Some((temporal_bin, row, col))
    }
}

/// The cells of a bin, and the rows of all bins, are no more than all cells.
pub(crate) proof fn lemma_bin_fits(grid: SparseVideoReadoutGrid)
    requires
        !grid.empty(),
    ensures
        0 < grid.bin_cells() <= grid.cells(),
        grid.temporal_bins * grid.height <= grid.cells(),
        grid.height <= grid.bin_cells(),
        grid.width <= grid.bin_cells(),
{
    let (t, h, w) = (grid.temporal_bins as int, grid.height as int, grid.width as int);
    assert(h * w >= 1 && h * w >= h && h * w >= w) by (nonlinear_arith)
        requires
            h >= 1,
            w >= 1,
    ;
    let c = h * w;
    assert(t * c >= c) by (nonlinear_arith)
        requires
            t >= 1,
            c >= 1,
    ;
    assert(t * c >= t * h) by (nonlinear_arith)
        requires
            t >= 1,
            c >= h,
    ;
}

pub(crate) proof fn lemma_video_index(
    grid: SparseVideoReadoutGrid,
    temporal_bin: int,
    row: int,
    col: int,
)
    requires
        0 <= temporal_bin < grid.temporal_bins,
        0 <= row < grid.height,
        0 <= col < grid.width,
    ensures
        0 <= temporal_bin * grid.height,
        temporal_bin * grid.height + row < grid.temporal_bins * grid.height,
        0 <= (temporal_bin * grid.height + row) * grid.width,
        grid.index_of(temporal_bin, row, col) == temporal_bin * grid.bin_cells() + row * grid.width
            + col,
        0 <= grid.index_of(temporal_bin, row, col) < grid.cells(),
        (temporal_bin * grid.height + row) * grid.width <= grid.cells(),
        temporal_bin * grid.height <= grid.cells(),
        temporal_bin * grid.height + row <= grid.cells(),
{
    lemma_bin_fits(grid);
    lemma_cell_index(row as nat, col as nat, grid.height as nat, grid.width as nat);
    let (h, w) = (grid.height as int, grid.width as int);
    let c = h * w;
    assert((temporal_bin * h + row) * w == temporal_bin * c + row * w) by (nonlinear_arith)
        requires
            c == h * w,
    ;
    assert(temporal_bin * c + c <= grid.temporal_bins * c && 0 <= temporal_bin * c)
        by (nonlinear_arith)
        requires
            0 <= temporal_bin,
            temporal_bin + 1 <= grid.temporal_bins,
            c >= 0,
    ;
    assert(0 <= temporal_bin * h && temporal_bin * h + h <= grid.temporal_bins * h)
        by (nonlinear_arith)
        requires
            0 <= temporal_bin,
            temporal_bin + 1 <= grid.temporal_bins,
            h >= 0,
    ;
}

/// The token of a cell gives the cell back.
pub proof fn lemma_coords_of_index(
    grid: SparseVideoReadoutGrid,
    temporal_bin: nat,
    row: nat,
    col: nat,
)
    requires
        temporal_bin < grid.temporal_bins,
        row < grid.height,
        col < grid.width,
    ensures
        grid.coords_of(
            grid.index_of(temporal_bin as int, row as int, col as int) as nat,
        ) == Some((temporal_bin, row, col)),
{
    lemma_video_index(grid, temporal_bin as int, row as int, col as int);
    lemma_cell_index(row, col, grid.height as nat, grid.width as nat);
    let token = grid.index_of(temporal_bin as int, row as int, col as int);
    vstd::arithmetic::div_mod::lemma_fundamental_div_mod_converse(
        token,
        grid.bin_cells() as int,
        temporal_bin as int,
        (row * grid.width + col) as int,
    );
}

/// The cell of a token gives the token back.
pub proof fn lemma_index_of_coords(grid: SparseVideoReadoutGrid, token: nat)
    requires
        !grid.empty(),
        token < grid.cells(),
    ensures
        grid.coords_of(token) matches Some((t, row, col)) && t < grid.temporal_bins && row
            < grid.height && col < grid.width && grid.index_of(t as int, row as int, col as int)
            == token,
{
    lemma_bin_fits(grid);
    let c = grid.bin_cells() as int;
    let w = grid.width as int;
    let t = token as int / c;
    let spatial = token as int % c;
    let row = spatial / w;
    let col = spatial % w;
    vstd::arithmetic::div_mod::lemma_fundamental_div_mod(token as int, c);
    vstd::arithmetic::div_mod::lemma_fundamental_div_mod(spatial, w);
    assert(0 <= t < grid.temporal_bins) by (nonlinear_arith)
        requires
            token == c * t + spatial,
            0 <= spatial < c,
            token < grid.temporal_bins * c,
            c > 0,
            token >= 0,
    ;
    assert(0 <= row < grid.height) by (nonlinear_arith)
        requires
            spatial == w * row + col,
            0 <= col < w,
            0 <= spatial < grid.height * w,
            w > 0,
    ;
    lemma_video_index(grid, t, row, col);
    assert(c * t == t * c && w * row == row * w) by (nonlinear_arith);
}

/// The geometry of a video that a downstream model cuts into tubelets and patches.
#[derive(Clone, Copy, Debug, PartialEq, Eq, Structural)]
pub struct SparseVideoPatchGeometry {
    pub frames: usize,
    pub height: usize,
    pub width: usize,
    pub tubelet_size: usize,
    pub patch_h: usize,
    pub patch_w: usize,
}

impl SparseVideoPatchGeometry {
    pub fn new(
        frames: usize,
        height: usize,
        width: usize,
        tubelet_size: usize,
        patch_h: usize,
        patch_w: usize,
    ) -> (r: SparseVideoPatchGeometry)
        ensures
            r == (SparseVideoPatchGeometry {
                frames,
                height,
                width,
                tubelet_size,
                patch_h,
                patch_w,
            }),
    {
        SparseVideoPatchGeometry { frames, height, width, tubelet_size, patch_h, patch_w }
    }

    pub fn square_patch(
        frames: usize,
        height: usize,
        width: usize,
        tubelet_size: usize,
        patch_size: usize,
    ) -> (r: SparseVideoPatchGeometry)
        ensures
            r == (SparseVideoPatchGeometry {
                frames,
                height,
                width,
                tubelet_size,
                patch_h: patch_size,
                patch_w: patch_size,
            }),
    {
        SparseVideoPatchGeometry::new(frames, height, width, tubelet_size, patch_size, patch_size)
    }

    /// What is wrong with the geometry, the first thing that is.
    pub open spec fn flaw(self) -> Option<AutoGazeError> {
        if self.frames == 0 {
            Some(AutoGazeError::NoVideoFrames)
        } else if self.height == 0 || self.width == 0 {
            Some(AutoGazeError::EmptyVideoDimensions)
        } else if self.tubelet_size == 0 {
            Some(AutoGazeError::EmptyTubelet)
        } else if self.patch_h == 0 || self.patch_w == 0 {
            Some(AutoGazeError::EmptyPatch)
        } else if self.frames % self.tubelet_size != 0 {
            Some(AutoGazeError::FramesNotDivisible)
        } else if self.height % self.patch_h != 0 {
            Some(AutoGazeError::HeightNotDivisible)
        } else if self.width % self.patch_w != 0 {
            Some(AutoGazeError::WidthNotDivisible)
        } else {
            None
        }
    }

    /// The grid of tubelets and patches, where they fill the video.
    pub fn readout_grid(self) -> (r: Result<SparseVideoReadoutGrid, AutoGazeError>)
        ensures
            match r {
                Ok(grid) => self.flaw() is None && grid == (SparseVideoReadoutGrid {
                    temporal_bins: self.frames / self.tubelet_size,
                    height: self.height / self.patch_h,
                    width: self.width / self.patch_w,
                }),
                Err(error) => self.flaw() == Some(error),
            },
    {
        if self.frames == 0 {
            return Err(AutoGazeError::NoVideoFrames);
        }
        if self.height == 0 || self.width == 0 {
            return Err(AutoGazeError::EmptyVideoDimensions);
        }
        if self.tubelet_size == 0 {
            return Err(AutoGazeError::EmptyTubelet);
        }
        if self.patch_h == 0 || self.patch_w == 0 {
            return Err(AutoGazeError::EmptyPatch);
        }
        if self.frames % self.tubelet_size != 0 {
            return Err(AutoGazeError::FramesNotDivisible);
        }
        if self.height % self.patch_h != 0 {
            return Err(AutoGazeError::HeightNotDivisible);
        }
        if self.width % self.patch_w != 0 {
            return Err(AutoGazeError::WidthNotDivisible);
        }
        Ok(
            SparseVideoReadoutGrid::new(
                self.frames / self.tubelet_size,
                self.height / self.patch_h,
                self.width / self.patch_w,
            ),
        )
    }
}

/// A geometry that fills its video gives a grid whose tubelets and patches are exactly the video.
pub proof fn lemma_geometry_fills(geometry: SparseVideoPatchGeometry)
    requires
        geometry.flaw() is None,
    ensures
        (geometry.frames / geometry.tubelet_size) * geometry.tubelet_size == geometry.frames,
        (geometry.height / geometry.patch_h) * geometry.patch_h == geometry.height,
        (geometry.width / geometry.patch_w) * geometry.patch_w == geometry.width,
{
    vstd::arithmetic::div_mod::lemma_fundamental_div_mod(
        geometry.frames as int,
        geometry.tubelet_size as int,
    );
    vstd::arithmetic::div_mod::lemma_fundamental_div_mod(
        geometry.height as int,
        geometry.patch_h as int,
    );
    vstd::arithmetic::div_mod::lemma_fundamental_div_mod(
        geometry.width as int,
        geometry.patch_w as int,
    );
    assert(forall|a: int, b: int| #[trigger] (a * b) == b * a) by (nonlinear_arith);
}

/// A region of an image in normalized coordinates.
#[derive(Clone, Copy, Debug, PartialEq, Eq, Structural)]
pub struct SparseReadoutRect {
    pub x0: Binary32,
    pub y0: Binary32,
    pub x1: Binary32,
    pub y1: Binary32,
}

impl SparseReadoutRect {
    /// The region between two corners, cut to the image.
    pub open spec fn spec_new(
        x0: Binary32,
        y0: Binary32,
        x1: Binary32,
        y1: Binary32,
    ) -> SparseReadoutRect {
        SparseReadoutRect {
            x0: unit_clamped(x0.smaller(x1)),
            y0: unit_clamped(y0.smaller(y1)),
            x1: unit_clamped(x0.larger(x1)),
            y1: unit_clamped(y0.larger(y1)),
        }
    }

    /// The region has no area.
    pub open spec fn empty(self) -> bool {
        self.x1.le(self.x0) || self.y1.le(self.y0)
    }

    pub fn new(x0: Binary32, y0: Binary32, x1: Binary32, y1: Binary32) -> (r: SparseReadoutRect)
        ensures
            r == SparseReadoutRect::spec_new(x0, y0, x1, y1),
    {
        SparseReadoutRect {
            x0: x0.smaller(x1).clamped(single(ZERO_BITS), single(ONE_BITS)),
            y0: y0.smaller(y1).clamped(single(ZERO_BITS), single(ONE_BITS)),
            x1: x0.larger(x1).clamped(single(ZERO_BITS), single(ONE_BITS)),
            y1: y0.larger(y1).clamped(single(ZERO_BITS), single(ONE_BITS)),
        }
    }

    /// The region of some bounds.
    pub open spec fn spec_from_bounds(bounds: FixationBounds) -> SparseReadoutRect {
        SparseReadoutRect::spec_new(bounds.x_min, bounds.y_min, bounds.x_max, bounds.y_max)
    }

    pub fn from_bounds(bounds: FixationBounds) -> (r: SparseReadoutRect)
        ensures
            r == SparseReadoutRect::spec_from_bounds(bounds),
    {
        SparseReadoutRect::new(bounds.x_min, bounds.y_min, bounds.x_max, bounds.y_max)
    }

    pub fn is_empty(&self) -> (r: bool)
        ensures
            r == self.empty(),
    {
        self.x1.le(self.x0) || self.y1.le(self.y0)
    }
}

/// How fixations are projected onto an image grid.
#[derive(Clone, Copy, Debug, PartialEq, Eq, Structural)]
pub struct SparseReadoutOptions {
    /// Fixations with a confidence at or below this are left out.
    pub confidence_threshold: Binary32,
    /// The most fixations of a frame that are projected.
    pub max_fixations_per_frame: Option<usize>,
    /// The factor by which a fixation cell grows before it is projected.
    pub fixation_scale: Binary32,
    /// The cells by which a projected region grows on each side.
    pub dilation: usize,
    /// The most tokens of a frame.
    pub max_tokens_per_frame: Option<usize>,
}

impl SparseReadoutOptions {
    /// All fixations at their own size.
    pub open spec fn spec_default() -> SparseReadoutOptions {
        SparseReadoutOptions {
            confidence_threshold: single(ZERO_BITS),
            max_fixations_per_frame: None,
            fixation_scale: single(ONE_BITS),
            dilation: 0,
            max_tokens_per_frame: None,
        }
    }
}

impl Default for SparseReadoutOptions {
    fn default() -> (r: SparseReadoutOptions)
        ensures
            r == SparseReadoutOptions::spec_default(),
    {
        SparseReadoutOptions {
            confidence_threshold: single(ZERO_BITS),
            max_fixations_per_frame: None,
            fixation_scale: single(ONE_BITS),
            dilation: 0,
            max_tokens_per_frame: None,
        }
    }
}

impl SparseReadoutOptions {
    pub fn with_confidence_threshold(self, confidence_threshold: Binary32) -> (r:
        SparseReadoutOptions)
        ensures
            r == (SparseReadoutOptions { confidence_threshold, ..self }),
    {
        SparseReadoutOptions { confidence_threshold, ..self }
    }

    pub fn with_max_fixations_per_frame(self, max_fixations_per_frame: usize) -> (r:
        SparseReadoutOptions)
        ensures
            r == (SparseReadoutOptions {
                max_fixations_per_frame: Some(max_fixations_per_frame),
                ..self
            }),
    {
        SparseReadoutOptions { max_fixations_per_frame: Some(max_fixations_per_frame), ..self }
    }

    pub fn with_fixation_scale(self, fixation_scale: Binary32) -> (r: SparseReadoutOptions)
        ensures
            r == (SparseReadoutOptions { fixation_scale, ..self }),
    {
        SparseReadoutOptions { fixation_scale, ..self }
    }

    pub fn with_dilation(self, dilation: usize) -> (r: SparseReadoutOptions)
        ensures
            r == (SparseReadoutOptions { dilation, ..self }),
    {
        SparseReadoutOptions { dilation, ..self }
    }

    pub fn with_max_tokens_per_frame(self, max_tokens_per_frame: usize) -> (r:
        SparseReadoutOptions)
        ensures
            r == (SparseReadoutOptions {
                max_tokens_per_frame: Some(max_tokens_per_frame),
                ..self
            }),
    {
        SparseReadoutOptions { max_tokens_per_frame: Some(max_tokens_per_frame), ..self }
    }
}

/// How image regions are projected onto a video grid.
#[derive(Clone, Copy, Debug, PartialEq, Eq, Structural)]
pub struct SparseVideoReadoutOptions {
    /// The frames of one temporal bin.
    pub tubelet_size: usize,
    /// The cells by which a projected region grows on each side.
    pub dilation: usize,
    /// The fewest tokens; others fill up to it.
    pub min_tokens: usize,
    /// The most tokens.
    pub max_tokens: Option<usize>,
}

impl SparseVideoReadoutOptions {
    /// One frame a bin, no growth and no bounds.
    pub open spec fn spec_default() -> SparseVideoReadoutOptions {
        SparseVideoReadoutOptions { tubelet_size: 1, dilation: 0, min_tokens: 0, max_tokens: None }
    }
}

impl Default for SparseVideoReadoutOptions {
    fn default() -> (r: SparseVideoReadoutOptions)
        ensures
            r == SparseVideoReadoutOptions::spec_default(),
    {
        SparseVideoReadoutOptions { tubelet_size: 1, dilation: 0, min_tokens: 0, max_tokens: None }
    }
}

impl SparseVideoReadoutOptions {
    pub fn with_tubelet_size(self, tubelet_size: usize) -> (r: SparseVideoReadoutOptions)
        ensures
            r == (SparseVideoReadoutOptions { tubelet_size, ..self }),
    {
        SparseVideoReadoutOptions { tubelet_size, ..self }
    }

    pub fn with_dilation(self, dilation: usize) -> (r: SparseVideoReadoutOptions)
        ensures
            r == (SparseVideoReadoutOptions { dilation, ..self }),
    {
        SparseVideoReadoutOptions { dilation, ..self }
    }

    pub fn with_min_tokens(self, min_tokens: usize) -> (r: SparseVideoReadoutOptions)
        ensures
            r == (SparseVideoReadoutOptions { min_tokens, ..self }),
    {
        SparseVideoReadoutOptions { min_tokens, ..self }
    }

    pub fn with_max_tokens(self, max_tokens: usize) -> (r: SparseVideoReadoutOptions)
        ensures
            r == (SparseVideoReadoutOptions { max_tokens: Some(max_tokens), ..self }),
    {
        SparseVideoReadoutOptions { max_tokens: Some(max_tokens), ..self }
    }

    pub fn with_exact_tokens(self, tokens: usize) -> (r: SparseVideoReadoutOptions)
        ensures
            r == (SparseVideoReadoutOptions {
                min_tokens: tokens,
                max_tokens: Some(tokens),
                ..self
            }),
    {
        SparseVideoReadoutOptions { min_tokens: tokens, max_tokens: Some(tokens), ..self }
    }
}

/// How fixations become the tokens of a downstream video grid.
#[derive(Clone, Copy, Debug, PartialEq, Eq, Structural)]
pub struct SparseVideoReadoutProjection {
    pub image_grid: SparseReadoutGrid,
    pub video_grid: SparseVideoReadoutGrid,
    pub readout_options: SparseReadoutOptions,
    pub video_options: SparseVideoReadoutOptions,
}

impl SparseVideoReadoutProjection {
    pub fn new(image_grid: SparseReadoutGrid, video_grid: SparseVideoReadoutGrid) -> (r:
        SparseVideoReadoutProjection)
        ensures
            r == (SparseVideoReadoutProjection {
                image_grid,
                video_grid,
                readout_options: SparseReadoutOptions::spec_default(),
                video_options: SparseVideoReadoutOptions::spec_default(),
            }),
    {
        SparseVideoReadoutProjection {
            image_grid,
            video_grid,
            readout_options: SparseReadoutOptions::default(),
            video_options: SparseVideoReadoutOptions::default(),
        }
    }

    /// The projection onto the grid of a video's tubelets and patches.
    pub fn from_patch_geometry(
        image_grid: SparseReadoutGrid,
        patch_geometry: SparseVideoPatchGeometry,
    ) -> (r: Result<SparseVideoReadoutProjection, AutoGazeError>)
        ensures
            match r {
                Ok(projection) => patch_geometry.flaw() is None && projection == (
                SparseVideoReadoutProjection {
                    image_grid,
                    video_grid: SparseVideoReadoutGrid {
                        temporal_bins: patch_geometry.frames / patch_geometry.tubelet_size,
                        height: patch_geometry.height / patch_geometry.patch_h,
                        width: patch_geometry.width / patch_geometry.patch_w,
                    },
                    readout_options: SparseReadoutOptions::spec_default(),
                    video_options: SparseVideoReadoutOptions::spec_default(),
                }),
                Err(error) => patch_geometry.flaw() == Some(error),
            },
    {
        match patch_geometry.readout_grid() {
            Ok(video_grid) => Ok(SparseVideoReadoutProjection::new(image_grid, video_grid)),
            Err(error) => Err(error),
        }
    }

    pub fn with_readout_options(self, readout_options: SparseReadoutOptions) -> (r:
        SparseVideoReadoutProjection)
        ensures
            r == (SparseVideoReadoutProjection { readout_options, ..self }),
    {
        SparseVideoReadoutProjection { readout_options, ..self }
    }

    pub fn with_video_options(self, video_options: SparseVideoReadoutOptions) -> (r:
        SparseVideoReadoutProjection)
        ensures
            r == (SparseVideoReadoutProjection { video_options, ..self }),
    {
        SparseVideoReadoutProjection { video_options, ..self }
    }
}

} // verus!
