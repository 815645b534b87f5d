//! How a frame is cut into tiles.
//!
//! Tiles start at the multiples of the stride, row by row. Tiles at the right and lower edges may
//! reach beyond the frame; what they miss is padded.
use crate::arith::{
    capped, ceil_quotient, div_ceil, lemma_ceil_quotient, max_int, max_usize, min_int, min_usize,
    saturating_times,
};
use crate::readout::lemma_cell_index;
use crate::trace::at_least_one;
use vstd::prelude::*;

verus! {

/// How frames are brought to the size of the model's input.
#[derive(Clone, Copy, Debug, PartialEq, Eq, Structural)]
pub enum AutoGazeInferenceMode {
    /// The whole frame is resized.
    ResizeToModelInput,
    /// The frame is resized to a whole number of tiles.
    TiledResizeToGrid { tile_size: usize },
    /// The frame is cut into tiles as it is.
    TiledFullResolution { tile_size: usize, stride: usize },
}

impl Default for AutoGazeInferenceMode {
    fn default() -> (r: AutoGazeInferenceMode)
        ensures
            r is ResizeToModelInput,
    {
        AutoGazeInferenceMode::ResizeToModelInput
    }
}

/// The number of tiles that a frame of the given size is cut into.
pub open spec fn tile_total(height: nat, width: nat, stride: nat) -> nat {
    ceil_quotient(at_least_one(height), stride) * ceil_quotient(at_least_one(width), stride)
}

impl AutoGazeInferenceMode {
    pub fn resize_to_model_input() -> (r: AutoGazeInferenceMode)
        ensures
            r is ResizeToModelInput,
    {
        AutoGazeInferenceMode::ResizeToModelInput
    }

    pub fn tiled_full_resolution(tile_size: usize, stride: usize) -> (r: AutoGazeInferenceMode)
        ensures
            r == (AutoGazeInferenceMode::TiledFullResolution { tile_size, stride }),
    {
        AutoGazeInferenceMode::TiledFullResolution { tile_size, stride }
    }

    pub fn tiled_resize_to_grid(tile_size: usize) -> (r: AutoGazeInferenceMode)
        ensures
            r == (AutoGazeInferenceMode::TiledResizeToGrid { tile_size }),
    {
        AutoGazeInferenceMode::TiledResizeToGrid { tile_size }
    }

    /// Tiles of the size of the model's input.
    pub fn tiled_model_input(model_input_size: usize) -> (r: AutoGazeInferenceMode)
        ensures
            r == (AutoGazeInferenceMode::TiledResizeToGrid {
                tile_size: at_least_one(model_input_size as nat) as usize,
            }),
    {
        AutoGazeInferenceMode::TiledResizeToGrid { tile_size: max_usize(model_input_size, 1) }
    }

    /// The mode with tile sizes of at least one and strides between one and the tile size.
    pub open spec fn normal(self) -> AutoGazeInferenceMode {
        match self {
            AutoGazeInferenceMode::ResizeToModelInput => AutoGazeInferenceMode::ResizeToModelInput,
            AutoGazeInferenceMode::TiledResizeToGrid { tile_size } => {
                AutoGazeInferenceMode::TiledResizeToGrid {
                    tile_size: at_least_one(tile_size as nat) as usize,
                }
            },
            AutoGazeInferenceMode::TiledFullResolution { tile_size, stride } => {
                AutoGazeInferenceMode::TiledFullResolution {
                    tile_size: at_least_one(tile_size as nat) as usize,
                    stride: tile_stride(tile_size as nat, stride as nat) as usize,
                }
            },
        }
    }

    pub fn normalized(self) -> (r: AutoGazeInferenceMode)
        ensures
            r == self.normal(),
    {
        match self {
            AutoGazeInferenceMode::ResizeToModelInput => AutoGazeInferenceMode::ResizeToModelInput,
            AutoGazeInferenceMode::TiledResizeToGrid { tile_size } => {
                AutoGazeInferenceMode::TiledResizeToGrid { tile_size: max_usize(tile_size, 1) }
            },
            AutoGazeInferenceMode::TiledFullResolution { tile_size, stride } => {
                let tile_size: usize = max_usize(tile_size, 1);
                AutoGazeInferenceMode::TiledFullResolution {
                    tile_size,
                    stride: min_usize(max_usize(stride, 1), tile_size),
                }
            },
        }
    }

    /// The number of tiles that a frame is cut into.
    pub open spec fn tiles_of(self, height: nat, width: nat) -> nat {
        match self {
            AutoGazeInferenceMode::ResizeToModelInput => 1,
            AutoGazeInferenceMode::TiledResizeToGrid { tile_size } => tile_total(
                height,
                width,
                at_least_one(tile_size as nat),
            ),
            AutoGazeInferenceMode::TiledFullResolution { tile_size, stride } => tile_total(
                height,
                width,
                tile_stride(tile_size as nat, stride as nat),
            ),
        }
    }

    /// The number of fixations of a frame of which every tile has `k`, at least one.
    pub fn fixation_budget(self, k: usize, source_height: usize, source_width: usize) -> (r: usize)
        requires
            self.tiles_of(source_height as nat, source_width as nat) <= usize::MAX,
        ensures
            r == capped(
                at_least_one(k as nat) * self.tiles_of(source_height as nat, source_width as nat),
            ),
    {
        let k: usize = max_usize(k, 1);
        match self.normalized() {
            AutoGazeInferenceMode::ResizeToModelInput => k,
            AutoGazeInferenceMode::TiledResizeToGrid { tile_size } => {
                let layout: AutoGazeTileLayout = AutoGazeTileLayout::resized_grid(
                    source_height,
                    source_width,
                    tile_size,
                );
                let count: usize = layout.tile_count();
                proof {
                    lemma_tile_total(
                        source_height as nat,
                        source_width as nat,
                        at_least_one(tile_size as nat),
                    );
                }
                saturating_times(k, max_usize(count, 1))
            },
            AutoGazeInferenceMode::TiledFullResolution { tile_size, stride } => {
                let layout: AutoGazeTileLayout = AutoGazeTileLayout::tiled(
                    source_height,
                    source_width,
                    tile_size,
                    stride,
                );
                let count: usize = layout.tile_count();
                proof {
                    lemma_tile_total(
                        source_height as nat,
                        source_width as nat,
                        tile_stride(tile_size as nat, stride as nat),
                    );
                }
                saturating_times(k, max_usize(count, 1))
            },
        }
    }
}

/// A stride between one and the tile size.
pub open spec fn tile_stride(tile_size: nat, stride: nat) -> nat {
    min_int(at_least_one(stride) as int, at_least_one(tile_size) as int) as nat
}

/// A frame is cut into at least one tile.
proof fn lemma_tile_total(height: nat, width: nat, stride: nat)
    requires
        stride > 0,
    ensures
        tile_total(height, width, stride) >= 1,
{
    lemma_ceil_quotient(at_least_one(height), stride);
    lemma_ceil_quotient(at_least_one(width), stride);
    let rows = ceil_quotient(at_least_one(height), stride);
    let cols = ceil_quotient(at_least_one(width), stride);
    assert(rows >= 1) by (nonlinear_arith)
        requires
            rows * stride >= 1,
            rows >= 0,
    ;
    assert(cols >= 1) by (nonlinear_arith)
        requires
            cols * stride >= 1,
            cols >= 0,
    ;
    assert(rows * cols >= 1) by (nonlinear_arith)
        requires
            rows >= 1,
            cols >= 1,
    ;
}

/// A rectangle of the frame, in pixels.
#[derive(Clone, Copy, Debug, PartialEq, Eq, Structural)]
pub struct AutoGazeTile {
    pub x: usize,
    pub y: usize,
    pub width: usize,
    pub height: usize,
}

impl AutoGazeTile {
    pub fn new(x: usize, y: usize, width: usize, height: usize) -> (r: AutoGazeTile)
        ensures
            r == (AutoGazeTile { x, y, width, height }),
    {
        AutoGazeTile { x, y, width, height }
    }

    /// Whether a pixel lies in the tile.
    pub open spec fn holds(self, x: int, y: int) -> bool {
        self.x <= x < self.x + self.width && self.y <= y < self.y + self.height
    }
}

/// The multiples of `stride` below `length`.
pub open spec fn origins(length: nat, stride: nat) -> Seq<usize> {
    Seq::new(ceil_quotient(length, stride), |i: int| (i * stride) as usize)
}

/// Square tiles at every pair of origins, row by row.
pub open spec fn tiles_at(ys: Seq<usize>, xs: Seq<usize>, size: usize) -> Seq<AutoGazeTile> {
    Seq::new(
        ys.len() * xs.len(),
        |i: int|
            AutoGazeTile {
                x: xs[i % (xs.len() as int)],
                y: ys[i / (xs.len() as int)],
                width: size,
                height: size,
            },
    )
}

/// The tiles that a frame is cut into.
#[derive(Clone, Debug, PartialEq, Eq)]
pub struct AutoGazeTileLayout {
    pub source_width: usize,
    pub source_height: usize,
    pub tile_size: usize,
    pub stride: usize,
    pub tiles: Vec<AutoGazeTile>,
}

/// The multiples of the stride below the length; both count as at least one.
pub fn tile_origins(length: usize, stride: usize) -> (r: Vec<usize>)
    ensures
        r@ == origins(at_least_one(length as nat), at_least_one(stride as nat)),
{
    let length: usize = max_usize(length, 1);
    let stride: usize = max_usize(stride, 1);
    let ghost count = ceil_quotient(length as nat, stride as nat);
    proof {
        lemma_origin_count(length as nat, stride as nat);
        assert((count - 1) * stride == count * stride - stride) by (nonlinear_arith);
    }
    let mut result: Vec<usize> = Vec::new();
    let mut origin: usize = 0;
    let mut more: bool = true;
    assert(0 * stride == 0);
    while more
        invariant
            0 < stride,
            length <= usize::MAX,
            count == ceil_quotient(length as nat, stride as nat),
            count * stride >= length,
            count > 0 ==> (count - 1) * stride < length,
            result@.len() <= count,
            result@ == Seq::new(result@.len(), |i: int| (i * stride) as usize),
            more ==> origin == result@.len() * stride && origin < length,
            !more ==> result@.len() * stride >= length,
        decreases (if more { length - origin } else { 0 }),
    {
        let ghost n = result@.len();
        let ghost before = result@;
        result.push(origin);
        assert(result@ =~= Seq::new(n + 1, |i: int| (i * stride) as usize));
        assert((n + 1) * stride == n * stride + stride) by (nonlinear_arith);
        proof {
            if n + 1 > count {
                assert((n * stride >= count * stride)) by (nonlinear_arith)
                    requires
                        n >= count,
                        stride > 0,
                ;
            }
        }
        if length - origin > stride {
            origin = origin + stride;
        } else {
            more = false;
        }
    }
    proof {
        let n = result@.len();
        if n < count {
            assert(n * stride <= (count - 1) * stride) by (nonlinear_arith)
                requires
                    n <= count - 1,
                    stride > 0,
            ;
        }
    }
    assert(result@ =~= origins(length as nat, stride as nat));
    result
}

/// Square tiles at every pair of origins.
fn tiles_from(ys: &[usize], xs: &[usize], size: usize) -> (r: Vec<AutoGazeTile>)
    ensures
        r@ == tiles_at(ys@, xs@, size),
{
    let mut tiles: Vec<AutoGazeTile> = Vec::new();
    let mut row: usize = 0;
    assert(0 * xs@.len() == 0) by (nonlinear_arith);
    while row < ys.len()
        invariant
            row <= ys@.len(),
            tiles@.len() == row * xs@.len(),
            forall|i: int|
                0 <= i < tiles@.len() ==> #[trigger] tiles@[i] == tiles_at(ys@, xs@, size)[i],
        decreases ys@.len() - row,
    {
        let mut col: usize = 0;
        while col < xs.len()
            invariant
                row < ys@.len(),
                col <= xs@.len(),
                tiles@.len() == row * xs@.len() + col,
                forall|i: int|
                    0 <= i < tiles@.len() ==> #[trigger] tiles@[i] == tiles_at(ys@, xs@, size)[i],
            decreases xs@.len() - col,
        {
            proof {
                lemma_cell_index(row as nat, col as nat, ys@.len(), xs@.len());
                let i = row * xs@.len() + col;
                vstd::arithmetic::div_mod::lemma_fundamental_div_mod_converse(
                    i,
                    xs@.len() as int,
                    row as int,
                    col as int,
                );
            }
            tiles.push(AutoGazeTile::new(xs[col], ys[row], size, size));
            col = col + 1;
        }
        assert((row + 1) * xs@.len() == row * xs@.len() + xs@.len()) by (nonlinear_arith);
        row = row + 1;
    }
    assert(tiles@ =~= tiles_at(ys@, xs@, size));
    tiles
}

/// One tile that is the whole frame.
pub open spec fn is_full_frame(
    layout: AutoGazeTileLayout,
    source_height: nat,
    source_width: nat,
) -> bool {
    &&& layout.source_width == source_width
    &&& layout.source_height == source_height
    &&& layout.tile_size == at_least_one(
        max_int(source_height as int, source_width as int) as nat,
    )
    &&& layout.stride == layout.tile_size
    &&& layout.tiles@ == seq![
        AutoGazeTile {
            x: 0,
            y: 0,
            width: at_least_one(source_width) as usize,
            height: at_least_one(source_height) as usize,
        },
    ]
}

/// Tiles at the multiples of the stride; sizes count as at least one, and the stride is cut to the
/// tile size.
pub open spec fn is_tiled(
    layout: AutoGazeTileLayout,
    source_height: nat,
    source_width: nat,
    tile_size: nat,
    stride: nat,
) -> bool {
    &&& layout.source_width == at_least_one(source_width)
    &&& layout.source_height == at_least_one(source_height)
    &&& layout.tile_size == at_least_one(tile_size)
    &&& layout.stride == tile_stride(tile_size, stride)
    &&& layout.tiles@ == tiles_at(
        origins(layout.source_height as nat, layout.stride as nat),
        origins(layout.source_width as nat, layout.stride as nat),
        layout.tile_size,
    )
    &&& layout.tiles@.len() == tile_total(source_height, source_width, layout.stride as nat)
}

/// Tiles side by side, over a frame that is resized to a whole number of them.
pub open spec fn is_resized_grid(
    layout: AutoGazeTileLayout,
    source_height: nat,
    source_width: nat,
    tile_size: nat,
) -> bool {
    let size = at_least_one(tile_size);
    &&& layout.tile_size == size
    &&& layout.stride == size
    &&& layout.source_width == capped(ceil_quotient(at_least_one(source_width), size) * size)
    &&& layout.source_height == capped(ceil_quotient(at_least_one(source_height), size) * size)
    &&& layout.tiles@ == tiles_at(
        origins(at_least_one(source_height), size),
        origins(at_least_one(source_width), size),
        layout.tile_size,
    )
    &&& layout.tiles@.len() == tile_total(source_height, source_width, size)
}

impl AutoGazeTileLayout {
    /// One tile that is the whole frame.
    pub fn full_frame(source_height: usize, source_width: usize) -> (r: AutoGazeTileLayout)
        ensures
            is_full_frame(r, source_height as nat, source_width as nat),
    {
        let side: usize = max_usize(max_usize(source_height, source_width), 1);
        let mut tiles: Vec<AutoGazeTile> = Vec::new();
        tiles.push(
            AutoGazeTile::new(0, 0, max_usize(source_width, 1), max_usize(source_height, 1)),
        );
        assert(tiles@ =~= seq![tiles@[0]]);
        AutoGazeTileLayout { source_width, source_height, tile_size: side, stride: side, tiles }
    }

    /// Tiles at the multiples of the stride; sizes count as at least one, and the stride is cut to
    /// the tile size.
    pub fn tiled(
        source_height: usize,
        source_width: usize,
        tile_size: usize,
        stride: usize,
    ) -> (r: AutoGazeTileLayout)
        requires
            tile_total(
                source_height as nat,
                source_width as nat,
                tile_stride(tile_size as nat, stride as nat),
            ) <= usize::MAX,
        ensures
            is_tiled(
                r,
                source_height as nat,
                source_width as nat,
                tile_size as nat,
                stride as nat,
            ),
    {
        let source_height: usize = max_usize(source_height, 1);
        let source_width: usize = max_usize(source_width, 1);
        let tile_size: usize = max_usize(tile_size, 1);
        let stride: usize = min_usize(max_usize(stride, 1), tile_size);
        let ys: Vec<usize> = tile_origins(source_height, stride);
        let xs: Vec<usize> = tile_origins(source_width, stride);
        let tiles: Vec<AutoGazeTile> = tiles_from(&ys, &xs, tile_size);
        AutoGazeTileLayout { source_width, source_height, tile_size, stride, tiles }
    }

    /// Tiles side by side over the smallest whole number of tiles that the frame fits in.
    pub fn resized_grid(source_height: usize, source_width: usize, tile_size: usize) -> (r:
        AutoGazeTileLayout)
        requires
            tile_total(
                source_height as nat,
                source_width as nat,
                at_least_one(tile_size as nat),
            ) <= usize::MAX,
        ensures
            is_resized_grid(r, source_height as nat, source_width as nat, tile_size as nat),
    {
        let height: usize = max_usize(source_height, 1);
        let width: usize = max_usize(source_width, 1);
        let tile_size: usize = max_usize(tile_size, 1);
        let rows: usize = div_ceil(height, tile_size);
        let cols: usize = div_ceil(width, tile_size);
        let target_height: usize = saturating_times(rows, tile_size);
        let target_width: usize = saturating_times(cols, tile_size);
        let ys: Vec<usize> = tile_origins(height, tile_size);
        let xs: Vec<usize> = tile_origins(width, tile_size);
        let tiles: Vec<AutoGazeTile> = tiles_from(&ys, &xs, tile_size);
        AutoGazeTileLayout {
            source_width: target_width,
            source_height: target_height,
            tile_size,
            stride: tile_size,
            tiles,
        }
    }

    pub fn tile_count(&self) -> (r: usize)
        ensures
            r == self.tiles@.len(),
    {
        self.tiles.len()
    }

    /// Whether the tiles fill the frame side by side, row by row, with nothing left over.
    pub open spec fn dense(self) -> bool {
        let size = at_least_one(self.tile_size as nat) as int;
        let rows = self.source_height as int / size;
        let cols = self.source_width as int / size;
        &&& self.stride == size
        &&& self.source_height as int % size == 0
        &&& self.source_width as int % size == 0
        &&& rows > 0
        &&& cols > 0
        &&& self.tiles@.len() == rows * cols
        &&& forall|i: int|
            0 <= i < self.tiles@.len() ==> self.is_dense_tile(#[trigger] self.tiles@[i], i)
    }

    /// `tile` is where the `i`th tile of a dense layout lies.
    pub open spec fn is_dense_tile(self, tile: AutoGazeTile, i: int) -> bool {
        let size = at_least_one(self.tile_size as nat) as int;
        let cols = self.source_width as int / size;
        &&& tile.x == (i % cols) * size
        &&& tile.y == (i / cols) * size
        &&& tile.width == size
        &&& tile.height == size
    }
}

/// Whether the tiles fill the frame side by side.
pub fn dense_grid_layout(layout: &AutoGazeTileLayout) -> (r: bool)
    ensures
        r == layout.dense(),
{
    let tile_size: usize = max_usize(layout.tile_size, 1);
    if layout.stride != tile_size || layout.source_height % tile_size != 0 || layout.source_width
        % tile_size != 0 {
        return false;
    }
    let rows: usize = layout.source_height / tile_size;
    let cols: usize = layout.source_width / tile_size;
    if rows == 0 || cols == 0 {
        return false;
    }
    let count: usize = layout.tiles.len();
    match rows.checked_mul(cols) {
        Some(total) => {
            if count != total {
                return false;
            }
        },
        None => {
            return false;
        },
    }
    let mut i: usize = 0;
    while i < count
        invariant
            i <= count,
            count == layout.tiles@.len(),
            count == rows * cols,
            tile_size == at_least_one(layout.tile_size as nat),
            rows == layout.source_height as int / tile_size as int,
            cols == layout.source_width as int / tile_size as int,
            cols > 0,
            rows > 0,
            forall|j: int| 0 <= j < i ==> layout.is_dense_tile(#[trigger] layout.tiles@[j], j),
        decreases count - i,
    {
        let row: usize = i / cols;
        let col: usize = i % cols;
        let tile: AutoGazeTile = layout.tiles[i];
        proof {
            vstd::arithmetic::div_mod::lemma_fundamental_div_mod(i as int, cols as int);
            assert(row < rows) by (nonlinear_arith)
                requires
                    i == cols * row + col,
                    col >= 0,
                    i < rows * cols,
                    cols > 0,
            ;
            vstd::arithmetic::div_mod::lemma_fundamental_div_mod(
                layout.source_height as int,
                tile_size as int,
            );
            vstd::arithmetic::div_mod::lemma_fundamental_div_mod(
                layout.source_width as int,
                tile_size as int,
            );
            assert(row * tile_size <= layout.source_height) by (nonlinear_arith)
                requires
                    row <= rows,
                    layout.source_height >= tile_size * rows,
            ;
            assert(col * tile_size <= layout.source_width) by (nonlinear_arith)
                requires
                    col <= cols,
                    layout.source_width >= tile_size * cols,
            ;
        }
        if tile.x != col * tile_size || tile.y != row * tile_size || tile.width != tile_size
            || tile.height != tile_size {
            assert(!layout.is_dense_tile(layout.tiles@[i as int], i as int));
            return false;
        }
        i = i + 1;
    }
    true
}

/// The fixations asked of each tile: the larger of the token limit and what is shown.
pub fn per_tile_trace_k(max_gaze_tokens_each_frame: usize, display_k: usize) -> (r: usize)
    ensures
        r == max_int(max_gaze_tokens_each_frame as int, at_least_one(display_k as nat) as int),
{
    max_usize(max_gaze_tokens_each_frame, max_usize(display_k, 1))
}

/// Which pixels of the frame a tile shows, and how much of it is padding.
#[derive(Clone, Copy, Debug, PartialEq, Eq, Structural)]
pub struct TileCrop {
    pub x: usize,
    pub y: usize,
    pub width: usize,
    pub height: usize,
    pub pad_right: usize,
    pub pad_bottom: usize,
}

/// How many of the `extent` pixels from `start` lie inside the frame, at least one.
pub open spec fn inside(start: nat, extent: nat, source: nat) -> nat {
    max_int(min_int((start + extent) as int, source as int) - start, 1) as nat
}

fn inside_extent(start: usize, extent: usize, source: usize) -> (r: usize)
    ensures
        r == inside(start as nat, extent as nat, source as nat),
{
    if source <= start {
        1
    } else {
        max_usize(min_usize(extent, source - start), 1)
    }
}

/// The part of a tile that lies in the frame; the rest is padded at the right and at the bottom.
pub fn tile_crop(tile: AutoGazeTile, source_height: usize, source_width: usize) -> (r: TileCrop)
    ensures
        r.x == tile.x,
        r.y == tile.y,
        r.width == inside(tile.x as nat, tile.width as nat, source_width as nat),
        r.height == inside(tile.y as nat, tile.height as nat, source_height as nat),
        r.pad_right == max_int(tile.width - r.width, 0),
        r.pad_bottom == max_int(tile.height - r.height, 0),
{
    let width: usize = inside_extent(tile.x, tile.width, source_width);
    let height: usize = inside_extent(tile.y, tile.height, source_height);
    TileCrop {
        x: tile.x,
        y: tile.y,
        width,
        height,
        pad_right: if tile.width > width {
            tile.width - width
        } else {
            0
        },
        pad_bottom: if tile.height > height {
            tile.height - height
        } else {
            0
        },
    }
}

/// A crop with its padding is as large as its tile.
pub proof fn lemma_crop_fills_tile(
    tile: AutoGazeTile,
    crop: TileCrop,
    source_height: nat,
    source_width: nat,
)
    requires
        tile.width > 0,
        tile.height > 0,
        crop.width == inside(tile.x as nat, tile.width as nat, source_width),
        crop.height == inside(tile.y as nat, tile.height as nat, source_height),
        crop.pad_right == max_int(tile.width - crop.width, 0),
        crop.pad_bottom == max_int(tile.height - crop.height, 0),
    ensures
        crop.width + crop.pad_right == tile.width,
        crop.height + crop.pad_bottom == tile.height,
        tile.x < source_width ==> tile.x + crop.width <= source_width,
        tile.y < source_height ==> tile.y + crop.height <= source_height,
{
}

/// The rows of a batch of tiles, with `batch` rows per tile, that a run of tiles takes up.
pub fn tile_batch_range(batch: usize, start_tile: usize, tile_count: usize) -> (r: (usize, usize))
    ensures
        r.0 == capped(start_tile as nat * at_least_one(batch as nat)),
        r.1 == capped(
            (r.0 + capped(tile_count as nat * at_least_one(batch as nat))) as nat,
        ),
        batch > 0 && (start_tile + tile_count) * batch <= usize::MAX ==> r.0 == start_tile * batch
            && r.1 == (start_tile + tile_count) * batch,
{
    proof {
        let (s, c, b) = (start_tile as int, tile_count as int, batch as int);
        assert((s + c) * b == s * b + c * b && s * b >= 0 && c * b >= 0) by (nonlinear_arith)
            requires
                s >= 0,
                c >= 0,
                b >= 0,
        ;
    }
    let batch: usize = max_usize(batch, 1);
    let start: usize = saturating_times(start_tile, batch);
    let len: usize = saturating_times(tile_count, batch);
    let end: usize = if len > usize::MAX - start {
        usize::MAX
    } else {
        start + len
    };
    (start, end)
}

/// The length of the `i`th run where `count` tiles are split into runs of `size`.
pub open spec fn chunk_len(count: nat, size: nat, i: nat) -> nat {
    min_int(size as int, count - i * size) as nat
}

/// Splits tiles into runs of at most `size`: where each run starts and how long it is.
pub fn tile_chunks(count: usize, size: usize) -> (r: Vec<(usize, usize)>)
    requires
        size > 0,
    ensures
        r@.len() == ceil_quotient(count as nat, size as nat),
        forall|i: int|
            0 <= i < r@.len() ==> (#[trigger] r@[i]).0 == i * size && r@[i].1 == chunk_len(
                count as nat,
                size as nat,
                i as nat,
            ) && r@[i].1 > 0,
{
    let ghost total = ceil_quotient(count as nat, size as nat);
    proof {
        lemma_ceil_quotient(count as nat, size as nat);
        if count > 0 {
            lemma_origin_count(count as nat, size as nat);
            assert((total - 1) * size == total * size - size) by (nonlinear_arith);
        } else {
            assert(0nat / (size as nat) == 0nat) by (nonlinear_arith)
                requires
                    size > 0,
            ;
        }
    }
    let mut runs: Vec<(usize, usize)> = Vec::new();
    let mut start: usize = 0;
    assert(0 * size == 0);
    while start < count
        invariant
            start <= count,
            0 < size,
            runs@.len() <= total,
            start < count ==> start == runs@.len() * size,
            start == count ==> runs@.len() * size >= count && (runs@.len() > 0 ==> (runs@.len() - 1)
                * size < count),
            forall|i: int|
                0 <= i < runs@.len() ==> (#[trigger] runs@[i]).0 == i * size && runs@[i].1
                    == chunk_len(count as nat, size as nat, i as nat) && runs@[i].1 > 0,
            total * size >= count,
            total > 0 ==> (total - 1) * size < count,
        decreases count - start,
    {
        let len: usize = min_usize(size, count - start);
        let ghost n = runs@.len();
        runs.push((start, len));
        proof {
            assert((n + 1) * size == n * size + size) by (nonlinear_arith);
            assert(n < total) by {
                if n >= total {
                    assert(n * size >= total * size) by (nonlinear_arith)
                        requires
                            n >= total,
                            size > 0,
                    ;
                }
            }
        }
        start = start + len;
    }
    proof {
        let n = runs@.len();
        if n < total {
            assert(n * size <= (total - 1) * size) by (nonlinear_arith)
                requires
                    n <= total - 1,
                    size > 0,
            ;
        }
    }
    runs
}

/// Every pixel of the frame lies in a tile, and in only one where tiles do not overlap.
pub proof fn lemma_tiles_cover(
    height: nat,
    width: nat,
    size: usize,
    stride: nat,
    x: int,
    y: int,
)
    requires
        0 < stride <= size,
        0 <= x < width <= usize::MAX,
        0 <= y < height <= usize::MAX,
    ensures
        exists|i: int|
            0 <= i < tiles_at(origins(height, stride), origins(width, stride), size).len()
                && #[trigger] tiles_at(
                origins(height, stride),
                origins(width, stride),
                size,
            )[i].holds(x, y),
        stride == size ==> forall|i: int, j: int|
            #![trigger tiles_at(origins(height, stride), origins(width, stride), size)[i], tiles_at(
                origins(height, stride), origins(width, stride), size)[j]]
            0 <= i < tiles_at(origins(height, stride), origins(width, stride), size).len() && 0 <= j
                < tiles_at(origins(height, stride), origins(width, stride), size).len()
                && tiles_at(origins(height, stride), origins(width, stride), size)[i].holds(x, y)
                && tiles_at(origins(height, stride), origins(width, stride), size)[j].holds(x, y)
                ==> i == j,
{
    let ys = origins(height, stride);
    let xs = origins(width, stride);
    let tiles = tiles_at(ys, xs, size);
    let row = y / (stride as int);
    let col = x / (stride as int);
    lemma_origin(height, stride, y);
    lemma_origin(width, stride, x);
    lemma_cell_index(row as nat, col as nat, ys.len(), xs.len());
    let n = row * xs.len() + col;
    vstd::arithmetic::div_mod::lemma_fundamental_div_mod_converse(n, xs.len() as int, row, col);
    assert(tiles[n].x == xs[col] && tiles[n].y == ys[row]);
    assert(tiles[n].holds(x, y));
    if stride == size {
        assert forall|i: int, j: int|
            #![trigger tiles[i], tiles[j]]
            0 <= i < tiles.len() && 0 <= j < tiles.len() && tiles[i].holds(x, y) && tiles[j].holds(
                x,
                y,
            ) implies i == j by {
            lemma_only_tile(height, width, size, stride, x, y, i);
            lemma_only_tile(height, width, size, stride, x, y, j);
        }
    }
}

/// The origin before a position is the one at its quotient by the stride.
proof fn lemma_origin(length: nat, stride: nat, v: int)
    requires
        stride > 0,
        0 <= v < length <= usize::MAX,
    ensures
        0 <= v / (stride as int) < origins(length, stride).len(),
        origins(length, stride)[v / (stride as int)] <= v < origins(length, stride)[v / (
        stride as int)] + stride,
{
    let q = v / (stride as int);
    vstd::arithmetic::div_mod::lemma_fundamental_div_mod(v, stride as int);
    assert(q * stride <= v < q * stride + stride && q >= 0) by (nonlinear_arith)
        requires
            v == stride * q + v % (stride as int),
            0 <= v % (stride as int) < stride,
            v >= 0,
    ;
    lemma_ceil_quotient(length, stride);
    let count = ceil_quotient(length, stride);
    if q >= count {
        assert(q * stride >= count * stride) by (nonlinear_arith)
            requires
                q >= count,
                stride > 0,
        ;
    }
}

/// Where tiles do not overlap, only the tile at a pixel's quotients holds it.
proof fn lemma_only_tile(
    height: nat,
    width: nat,
    size: usize,
    stride: nat,
    x: int,
    y: int,
    i: int,
)
    requires
        0 < stride == size,
        0 <= x < width <= usize::MAX,
        0 <= y < height <= usize::MAX,
        0 <= i < tiles_at(origins(height, stride), origins(width, stride), size).len(),
        tiles_at(origins(height, stride), origins(width, stride), size)[i].holds(x, y),
    ensures
        i == (y / (stride as int)) * origins(width, stride).len() + x / (stride as int),
{
    let ys = origins(height, stride);
    let xs = origins(width, stride);
    let cols = xs.len() as int;
    let rows = ys.len() as int;
    assert(cols > 0) by (nonlinear_arith)
        requires
            0 <= i < rows * cols,
            cols >= 0,
    ;
    vstd::arithmetic::div_mod::lemma_fundamental_div_mod(i, cols);
    let row = i / cols;
    let col = i % cols;
    assert(0 <= row < rows) by (nonlinear_arith)
        requires
            i == cols * row + col,
            0 <= col < cols,
            0 <= i < rows * cols,
    ;
    lemma_origin_fits(height, stride, row);
    lemma_origin_fits(width, stride, col);
    vstd::arithmetic::div_mod::lemma_fundamental_div_mod_converse(
        x,
        stride as int,
        col,
        x - col * stride,
    );
    vstd::arithmetic::div_mod::lemma_fundamental_div_mod_converse(
        y,
        stride as int,
        row,
        y - row * stride,
    );
    assert(cols * row == row * cols) by (nonlinear_arith);
}

/// An origin is its index times the stride, below the length.
proof fn lemma_origin_fits(length: nat, stride: nat, i: int)
    requires
        stride > 0,
        length <= usize::MAX,
        0 <= i < origins(length, stride).len(),
    ensures
        origins(length, stride)[i] == i * stride,
        0 <= i * stride < length,
{
    lemma_ceil_quotient(length, stride);
    let k = i as nat;
    if k * stride >= length {
        assert(k >= ceil_quotient(length, stride));
    }
    assert(0 <= i * stride) by (nonlinear_arith)
        requires
            i >= 0,
            stride > 0,
    ;
}

/// A resized grid is dense: its tiles fill it without overlap and without padding.
pub proof fn lemma_resized_grid_dense(
    layout: AutoGazeTileLayout,
    source_height: nat,
    source_width: nat,
)
    requires
        0 < source_height <= usize::MAX,
        0 < source_width <= usize::MAX,
        layout.tile_size > 0,
        layout.stride == layout.tile_size,
        layout.source_width == ceil_quotient(source_width, layout.tile_size as nat)
            * layout.tile_size,
        layout.source_height == ceil_quotient(source_height, layout.tile_size as nat)
            * layout.tile_size,
        layout.tiles@ == tiles_at(
            origins(source_height, layout.tile_size as nat),
            origins(source_width, layout.tile_size as nat),
            layout.tile_size,
        ),
    ensures
        layout.dense(),
        source_height <= layout.source_height < source_height + layout.tile_size,
        source_width <= layout.source_width < source_width + layout.tile_size,
{
    let size = layout.tile_size as nat;
    let rows = ceil_quotient(source_height, size);
    let cols = ceil_quotient(source_width, size);
    lemma_origin_count(source_height, size);
    lemma_origin_count(source_width, size);
    vstd::arithmetic::div_mod::lemma_fundamental_div_mod_converse(
        layout.source_height as int,
        size as int,
        rows as int,
        0,
    );
    vstd::arithmetic::div_mod::lemma_fundamental_div_mod_converse(
        layout.source_width as int,
        size as int,
        cols as int,
        0,
    );
    let ys = origins(source_height, size);
    let xs = origins(source_width, size);
    assert forall|i: int| 0 <= i < layout.tiles@.len() implies layout.is_dense_tile(
        #[trigger] layout.tiles@[i],
        i,
    ) by {
        vstd::arithmetic::div_mod::lemma_fundamental_div_mod(i, cols as int);
        let row = i / (cols as int);
        let col = i % (cols as int);
        assert(0 <= row < rows) by (nonlinear_arith)
            requires
                i == cols * row + col,
                0 <= col < cols,
                0 <= i < rows * cols,
        ;
        lemma_origin_fits(source_height, size, row);
        lemma_origin_fits(source_width, size, col);
    }
}

/// The origins of a nonempty length reach it, and the last one lies below it.
proof fn lemma_origin_count(length: nat, stride: nat)
    requires
        stride > 0,
        length > 0,
    ensures
        ceil_quotient(length, stride) > 0,
        length <= ceil_quotient(length, stride) * stride < length + stride,
{
    lemma_ceil_quotient(length, stride);
    let count = ceil_quotient(length, stride);
    assert(count > 0) by (nonlinear_arith)
        requires
            count * stride >= length,
            length > 0,
            count >= 0,
    ;
    let short = (count - 1) as nat;
    assert(!(short * stride >= length));
    assert(short * stride == count * stride - stride) by (nonlinear_arith)
        requires
            short == count - 1,
    ;
}

/// How the frames of a clip are run.
#[derive(Clone, Debug, PartialEq, Eq)]
pub struct InferencePlan {
    /// The tiles; one where the whole frame is run.
    pub layout: AutoGazeTileLayout,
    /// Tiles are run one by one and stitched.
    pub tiled: bool,
    /// The frame is resized to the layout's size first.
    pub resize: bool,
    /// The tiles fill the frame side by side, so that they can be cut in one go.
    pub dense: bool,
}

/// Plans how frames of a given size are run.
pub fn plan_inference(mode: AutoGazeInferenceMode, source_height: usize, source_width: usize) -> (r:
    InferencePlan)
    requires
        mode.tiles_of(source_height as nat, source_width as nat) <= usize::MAX,
    ensures
        match mode {
            AutoGazeInferenceMode::ResizeToModelInput => {
                &&& !r.tiled
                &&& !r.resize
                &&& is_full_frame(r.layout, source_height as nat, source_width as nat)
            },
            AutoGazeInferenceMode::TiledResizeToGrid { tile_size } => {
                &&& r.tiled
                &&& r.resize == (source_height != r.layout.source_height || source_width
                    != r.layout.source_width)
                &&& is_resized_grid(
                    r.layout,
                    source_height as nat,
                    source_width as nat,
                    tile_size as nat,
                )
            },
            AutoGazeInferenceMode::TiledFullResolution { tile_size, stride } => {
                &&& r.tiled
                &&& !r.resize
                &&& is_tiled(
                    r.layout,
                    source_height as nat,
                    source_width as nat,
                    tile_size as nat,
                    stride as nat,
                )
            },
        },
        r.dense == (r.tiled && r.layout.dense()),
{
    match mode {
        AutoGazeInferenceMode::ResizeToModelInput => InferencePlan {
            layout: AutoGazeTileLayout::full_frame(source_height, source_width),
            tiled: false,
            resize: false,
            dense: false,
        },
        AutoGazeInferenceMode::TiledResizeToGrid { tile_size } => {
            let layout: AutoGazeTileLayout = AutoGazeTileLayout::resized_grid(
                source_height,
                source_width,
                tile_size,
            );
            let resize: bool = source_height != layout.source_height || source_width
                != layout.source_width;
            let dense: bool = dense_grid_layout(&layout);
            InferencePlan { layout, tiled: true, resize, dense }
        },
        AutoGazeInferenceMode::TiledFullResolution { tile_size, stride } => {
            let layout: AutoGazeTileLayout = AutoGazeTileLayout::tiled(
                source_height,
                source_width,
                tile_size,
                stride,
            );
            let dense: bool = dense_grid_layout(&layout);
            InferencePlan { layout, tiled: true, resize: false, dense }
        },
    }
}

/// A stride between one and the tile size is taken as it is; a larger one is cut to the tile size,
/// so that tiles leave no gaps.
pub proof fn lemma_stride_taken(tile_size: nat, stride: nat)
    requires
        tile_size > 0,
        stride > 0,
    ensures
        stride <= tile_size ==> tile_stride(tile_size, stride) == stride,
        stride > tile_size ==> tile_stride(tile_size, stride) == tile_size,
{
}

/// Runs of tiles follow each other without gaps and end with the last tile.
pub proof fn lemma_chunks_partition(count: nat, size: nat, i: nat)
    requires
        size > 0,
        i < ceil_quotient(count, size),
    ensures
        1 <= chunk_len(count, size, i) <= size,
        i + 1 < ceil_quotient(count, size) ==> i * size + chunk_len(count, size, i) == (i + 1)
            * size,
        i + 1 == ceil_quotient(count, size) ==> i * size + chunk_len(count, size, i) == count,
{
    lemma_ceil_quotient(count, size);
    let n = ceil_quotient(count, size);
    assert(i * size < count) by {
        if i * size >= count {
            assert(i >= n);
        }
    }
    assert((i + 1) * size == i * size + size) by (nonlinear_arith);
    let next = i + 1;
    if next < n {
        assert(next * size < count) by {
            if next * size >= count {
                assert(next >= n);
            }
        }
    } else {
        assert(next * size >= count);
    }
}

/// A layout of tiles keeps the frame's size, the tile size and the stride that it was made for, and
/// every pixel of the frame lies in one of its tiles.
pub proof fn lemma_tiled_layout_covers(
    layout: AutoGazeTileLayout,
    source_height: nat,
    source_width: nat,
    tile_size: nat,
    stride: nat,
    x: int,
    y: int,
)
    requires
        is_tiled(layout, source_height, source_width, tile_size, stride),
        0 < stride <= tile_size <= usize::MAX,
        0 <= x < source_width <= usize::MAX,
        0 <= y < source_height <= usize::MAX,
    ensures
        layout.source_width == source_width,
        layout.source_height == source_height,
        layout.tile_size == tile_size,
        layout.stride == stride,
        layout.tiles@.len() == tile_total(source_height, source_width, stride),
        exists|i: int| 0 <= i < layout.tiles@.len() && #[trigger] layout.tiles@[i].holds(x, y),
{
    lemma_tiles_cover(source_height, source_width, tile_size as usize, stride, x, y);
    let tiles = tiles_at(
        origins(source_height, stride),
        origins(source_width, stride),
        tile_size as usize,
    );
    let i = choose|i: int| 0 <= i < tiles.len() && #[trigger] tiles[i].holds(x, y);
    assert(layout.tiles@[i].holds(x, y));
}

/// A frame that is resized to whole tiles grows by less than a tile in each direction, and its tiles
/// fill it without overlap.
pub proof fn lemma_resized_layout_dense(
    layout: AutoGazeTileLayout,
    source_height: nat,
    source_width: nat,
    tile_size: nat,
)
    requires
        is_resized_grid(layout, source_height, source_width, tile_size),
        0 < tile_size,
        0 < source_height,
        0 < source_width,
        source_height + tile_size <= usize::MAX,
        source_width + tile_size <= usize::MAX,
    ensures
        layout.dense(),
        layout.tile_size == tile_size,
        source_height <= layout.source_height < source_height + tile_size,
        source_width <= layout.source_width < source_width + tile_size,
{
    lemma_whole_tiles(source_height, tile_size);
    lemma_whole_tiles(source_width, tile_size);
    lemma_resized_grid_dense(layout, source_height, source_width);
}

proof fn lemma_whole_tiles(length: nat, size: nat)
    requires
        length > 0,
        size > 0,
    ensures
        length <= ceil_quotient(length, size) * size < length + size,
{
    lemma_ceil_quotient(length, size);
    let n = ceil_quotient(length, size);
    assert(n >= 1) by (nonlinear_arith)
        requires
            n * size >= length,
            length >= 1,
    ;
    let k = (n - 1) as nat;
    assert(k * size < length);
    assert(n * size == k * size + size) by (nonlinear_arith)
        requires
            n == k + 1,
    ;
}

/// The layout of a whole frame has one tile, and every pixel lies in it.
pub proof fn lemma_full_frame_covers(
    layout: AutoGazeTileLayout,
    source_height: nat,
    source_width: nat,
    x: int,
    y: int,
)
    requires
        is_full_frame(layout, source_height, source_width),
        0 <= x < source_width <= usize::MAX,
        0 <= y < source_height <= usize::MAX,
    ensures
        layout.tiles@.len() == 1,
        layout.tiles@[0].holds(x, y),
        layout.tiles@[0].width == layout.source_width,
        layout.tiles@[0].height == layout.source_height,
{
}

} // verus!
