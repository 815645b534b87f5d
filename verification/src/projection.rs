//! Projecting fixations and regions onto the tokens of image and video grids.
//!
//! A region selects the cells that it touches, row by row. Tokens are selected once, in the order
//! in which they are first met, up to a limit.
use crate::arith::{max_int, max_usize, min_int, min_usize, saturating_times};
use crate::error::AutoGazeError;
use crate::ieee::Binary32;
use crate::readout::{
    lemma_bin_fits, lemma_index_of_coords, SparseReadoutGrid, SparseReadoutOptions,
    SparseReadoutRect, SparseVideoReadoutGrid, SparseVideoReadoutOptions, EPSILON_BITS,
    GRID_BOUNDARY_EPSILON_BITS,
};
use crate::trace::{single, unit_clamped, FixationPoint, ONE_BITS, ZERO_BITS};
use vstd::prelude::*;

verus! {

/// `v` moved into `0..=n`.
pub open spec fn cut_to_grid(v: int, n: int) -> int {
    if v < 0 {
        0
    } else if v > n {
        n
    } else {
        v
    }
}

/// The first cell of a grid with `n` cells that a region touches which starts at `edge`.
pub open spec fn first_cell(edge: Binary32, n: nat, dilation: nat) -> int {
    let place = edge.times(Binary32::of_nat(n)).plus(single(GRID_BOUNDARY_EPSILON_BITS));
    cut_to_grid(place.to_i64(place.floor_int()) - dilation, n as int)
}

/// The cell behind the last one that a region touches which ends at `edge`.
pub open spec fn end_cell(edge: Binary32, n: nat, dilation: nat) -> int {
    let place = edge.times(Binary32::of_nat(n)).minus(single(GRID_BOUNDARY_EPSILON_BITS));
    cut_to_grid(place.to_i64(place.ceil_int()) + dilation, n as int)
}

/// The cells that a region touches: first and end row, first and end column.
pub open spec fn rect_cells(rect: SparseReadoutRect, grid: SparseReadoutGrid, dilation: nat) -> Option<
    (int, int, int, int),
> {
    let row_start = first_cell(rect.y0, grid.height as nat, dilation);
    let row_end = end_cell(rect.y1, grid.height as nat, dilation);
    let col_start = first_cell(rect.x0, grid.width as nat, dilation);
    let col_end = end_cell(rect.x1, grid.width as nat, dilation);
    if rect.empty() || grid.empty() || row_start >= row_end || col_start >= col_end {
        None
    } else {
        Some((row_start, row_end, col_start, col_end))
    }
}

fn lower_cell(edge: Binary32, n: usize, dilation: usize) -> (r: usize)
    ensures
        r == first_cell(edge, n as nat, dilation as nat),
        r <= n,
{
    let place: Binary32 = edge.times(Binary32::from_usize(n)).plus(
        single(GRID_BOUNDARY_EPSILON_BITS),
    );
    let cell: i128 = place.floor_i64() as i128 - dilation as i128;
    if cell < 0 {
        0
    } else if cell > n as i128 {
        n
    } else {
        cell as usize
    }
}

fn upper_cell(edge: Binary32, n: usize, dilation: usize) -> (r: usize)
    ensures
        r == end_cell(edge, n as nat, dilation as nat),
        r <= n,
{
    let place: Binary32 = edge.times(Binary32::from_usize(n)).minus(
        single(GRID_BOUNDARY_EPSILON_BITS),
    );
    let cell: i128 = place.ceil_i64() as i128 + dilation as i128;
    if cell < 0 {
        0
    } else if cell > n as i128 {
        n
    } else {
        cell as usize
    }
}

/// The cells that a region touches, grown by `dilation`; `None` where it touches none.
pub fn rect_grid_bounds(
    rect: SparseReadoutRect,
    grid: SparseReadoutGrid,
    dilation: usize,
) -> (r: Option<(usize, usize, usize, usize)>)
    ensures
        match r {
            Some((r0, r1, c0, c1)) => rect_cells(rect, grid, dilation as nat) == Some(
                (r0 as int, r1 as int, c0 as int, c1 as int),
            ) && r0 < r1 <= grid.height && c0 < c1 <= grid.width,
            None => rect_cells(rect, grid, dilation as nat) is None,
        },
{
    if rect.is_empty() || grid.is_empty() {
        return None;
    }
    let row_start: usize = lower_cell(rect.y0, grid.height, dilation);
    let row_end: usize = upper_cell(rect.y1, grid.height, dilation);
    let col_start: usize = lower_cell(rect.x0, grid.width, dilation);
    let col_end: usize = upper_cell(rect.x1, grid.width, dilation);
    if row_start < row_end && col_start < col_end {
        Some((row_start, row_end, col_start, col_end))
    } else {
        None
    }
}

/// The tokens that a region selects, row by row. Cells are numbered from `base` on.
pub open spec fn rect_tokens(
    rect: SparseReadoutRect,
    grid: SparseReadoutGrid,
    dilation: nat,
    base: nat,
) -> Seq<usize> {
    match rect_cells(rect, grid, dilation) {
        Some((r0, r1, c0, c1)) => Seq::new(
            ((r1 - r0) * (c1 - c0)) as nat,
            |i: int|
                (base + (r0 + i / (c1 - c0)) * grid.width + c0 + i % (c1 - c0)) as usize,
        ),
        None => Seq::empty(),
    }
}

/// The list has no room for another token.
pub open spec fn is_full(tokens: Seq<usize>, limit: Option<usize>) -> bool {
    limit is Some && tokens.len() >= limit->0
}

/// `tokens` followed by the first `n` candidates that are not in the list yet, up to the limit.
pub open spec fn with_new(
    tokens: Seq<usize>,
    candidates: Seq<usize>,
    n: nat,
    limit: Option<usize>,
) -> Seq<usize>
    decreases n,
{
    if n == 0 {
        tokens
    } else {
        let before = with_new(tokens, candidates, (n - 1) as nat, limit);
        let token = candidates[n - 1];
        if is_full(before, limit) || before.contains(token) {
            before
        } else {
            before.push(token)
        }
    }
}

/// `tokens` with all candidates that are not in the list yet, up to the limit.
pub open spec fn with_all_new(
    tokens: Seq<usize>,
    candidates: Seq<usize>,
    limit: Option<usize>,
) -> Seq<usize> {
    with_new(tokens, candidates, candidates.len(), limit)
}

proof fn lemma_full_stays(
    tokens: Seq<usize>,
    candidates: Seq<usize>,
    m: nat,
    n: nat,
    limit: Option<usize>,
)
    requires
        m <= n,
        is_full(with_new(tokens, candidates, m, limit), limit),
    ensures
        with_new(tokens, candidates, n, limit) == with_new(tokens, candidates, m, limit),
    decreases n,
{
    if m < n {
        lemma_full_stays(tokens, candidates, m, (n - 1) as nat, limit);
    }
}

/// No token twice, all below `count`, none beyond the limit.
pub open spec fn is_selection(tokens: Seq<usize>, count: nat, limit: Option<usize>) -> bool {
    &&& tokens.no_duplicates()
    &&& forall|i: int| 0 <= i < tokens.len() ==> #[trigger] tokens[i] < count
    &&& limit is Some ==> tokens.len() <= limit->0
}

/// Selecting further tokens keeps what is selected, adds nothing twice and respects the limit.
pub proof fn lemma_with_new(
    tokens: Seq<usize>,
    candidates: Seq<usize>,
    n: nat,
    limit: Option<usize>,
    count: nat,
)
    requires
        n <= candidates.len(),
        is_selection(tokens, count, limit),
        forall|i: int| 0 <= i < n ==> #[trigger] candidates[i] < count,
    ensures
        is_selection(with_new(tokens, candidates, n, limit), count, limit),
        with_new(tokens, candidates, n, limit).len() >= tokens.len(),
        with_new(tokens, candidates, n, limit).take(tokens.len() as int) == tokens,
        !is_full(with_new(tokens, candidates, n, limit), limit) ==> forall|i: int|
            0 <= i < n ==> with_new(tokens, candidates, n, limit).contains(
                #[trigger] candidates[i],
            ),
    decreases n,
{
    let result = with_new(tokens, candidates, n, limit);
    if n == 0 {
        assert(tokens.take(tokens.len() as int) =~= tokens);
    } else {
        lemma_with_new(tokens, candidates, (n - 1) as nat, limit, count);
        let before = with_new(tokens, candidates, (n - 1) as nat, limit);
        let token = candidates[n - 1];
        if !is_full(before, limit) && !before.contains(token) {
            assert(result.take(tokens.len() as int) =~= before.take(tokens.len() as int));
            assert forall|i: int, j: int|
                0 <= i < result.len() && 0 <= j < result.len() && i != j implies result[i]
                != result[j] by {
                if i == before.len() {
                    assert(before.contains(before[j]));
                } else if j == before.len() {
                    assert(before.contains(before[i]));
                }
            }
        }
        if !is_full(result, limit) {
            assert forall|i: int| 0 <= i < n implies result.contains(#[trigger] candidates[i]) by {
                if i < n - 1 {
                    assert(before.contains(candidates[i]));
                    let j = choose|j: int| 0 <= j < before.len() && before[j] == candidates[i];
                    assert(result[j] == candidates[i]);
                } else if before.contains(token) {
                } else {
                    assert(result[before.len() as int] == token);
                }
            }
        }
    }
}

/// The flags mark exactly the selected tokens.
spec fn marks(seen: Seq<bool>, tokens: Seq<usize>) -> bool {
    &&& forall|i: int| 0 <= i < tokens.len() ==> #[trigger] tokens[i] < seen.len()
    &&& forall|t: int| 0 <= t < seen.len() ==> #[trigger] seen[t] == tokens.contains(t as usize)
}

fn no_marks(count: usize) -> (r: Vec<bool>)
    ensures
        r@.len() == count,
        marks(r@, Seq::empty()),
{
    let mut seen: Vec<bool> = Vec::new();
    while seen.len() < count
        invariant
            seen@.len() <= count,
            forall|i: int| 0 <= i < seen@.len() ==> !(#[trigger] seen@[i]),
        decreases count - seen@.len(),
    {
        seen.push(false);
    }
    seen
}

/// Selects a token that is not selected yet, where there is room.
fn push_token(token: usize, limit: Option<usize>, seen: &mut Vec<bool>, tokens: &mut Vec<usize>)
    requires
        marks(old(seen)@, old(tokens)@),
        token < old(seen)@.len(),
    ensures
        marks(final(seen)@, final(tokens)@),
        final(seen)@.len() == old(seen)@.len(),
        final(tokens)@ == if is_full(old(tokens)@, limit) || old(tokens)@.contains(token) {
            old(tokens)@
        } else {
            old(tokens)@.push(token)
        },
{
    let full: bool = match limit {
        Some(limit) => tokens.len() >= limit,
        None => false,
    };
    if full || seen[token] {
        return ;
    }
    let ghost before = tokens@;
    let total: usize = seen.len();
    seen.set(token, true);
    tokens.push(token);
    assert(seen@.len() == total);
    proof {
        assert forall|t: int| 0 <= t < seen@.len() implies #[trigger] seen@[t] == tokens@.contains(
            t as usize,
        ) by {
            if t == token {
                assert(tokens@[before.len() as int] == token);
            } else {
                if before.contains(t as usize) {
                    let j = choose|j: int| 0 <= j < before.len() && before[j] == t as usize;
                    assert(tokens@[j] == t as usize);
                }
                if tokens@.contains(t as usize) {
                    let j = choose|j: int| 0 <= j < tokens@.len() && tokens@[j] == t as usize;
                    assert(j != before.len());
                    assert(before[j] == t as usize);
                }
            }
        }
    }
}

/// Selects the tokens of a region. Cells are numbered from `base` on.
fn push_rect_tokens(
    rect: SparseReadoutRect,
    grid: SparseReadoutGrid,
    dilation: usize,
    base: usize,
    limit: Option<usize>,
    seen: &mut Vec<bool>,
    tokens: &mut Vec<usize>,
)
    requires
        marks(old(seen)@, old(tokens)@),
        base + grid.cells() <= old(seen)@.len(),
    ensures
        marks(final(seen)@, final(tokens)@),
        final(seen)@.len() == old(seen)@.len(),
        final(tokens)@ == with_all_new(
            old(tokens)@,
            rect_tokens(rect, grid, dilation as nat, base as nat),
            limit,
        ),
{
    let ghost candidates = rect_tokens(rect, grid, dilation as nat, base as nat);
    let ghost given = tokens@;
    let total: usize = seen.len();
    let (r0, r1, c0, c1) = match rect_grid_bounds(rect, grid, dilation) {
        Some(bounds) => bounds,
        None => {
            return ;
        },
    };
    let cols: usize = c1 - c0;
    proof {
        assert((r1 - r0) * cols <= grid.height * grid.width) by (nonlinear_arith)
            requires
                0 <= r1 - r0 <= grid.height,
                0 <= cols <= grid.width,
        ;
    }
    let n: usize = (r1 - r0) * cols;
    let mut i: usize = 0;
    while i < n
        invariant
            i <= n,
            n == (r1 - r0) * cols,
            cols == c1 - c0,
            r0 < r1 <= grid.height,
            c0 < c1 <= grid.width,
            base + grid.cells() <= total,
            total == seen@.len(),
            candidates.len() == n,
            candidates == Seq::new(
                n as nat,
                |i: int|
                    (base + (r0 + i / (c1 - c0)) * grid.width + c0 + i % (c1 - c0)) as usize,
            ),
            marks(seen@, tokens@),
            tokens@ == with_new(given, candidates, i as nat, limit),
        decreases n - i,
    {
        proof {
            vstd::arithmetic::div_mod::lemma_fundamental_div_mod(i as int, cols as int);
            assert(i / cols < r1 - r0) by (nonlinear_arith)
                requires
                    i == cols * (i / cols) + i % cols,
                    0 <= i % cols,
                    i < (r1 - r0) * cols,
                    cols > 0,
            ;
            crate::readout::lemma_cell_index(
                (r0 + i / cols) as nat,
                (c0 + i % cols) as nat,
                grid.height as nat,
                grid.width as nat,
            );
        }
        let row: usize = r0 + i / cols;
        let col: usize = c0 + i % cols;
        let token: usize = base + (row * grid.width + col);
        assert(candidates[i as int] == token);
        push_token(token, limit, seen, tokens);
        i = i + 1;
    }
}

/// The tokens that the first `k` regions select.
pub open spec fn rects_selected(
    rects: Seq<SparseReadoutRect>,
    k: nat,
    grid: SparseReadoutGrid,
    dilation: nat,
    base: nat,
    limit: Option<usize>,
    tokens: Seq<usize>,
) -> Seq<usize>
    decreases k,
{
    if k == 0 {
        tokens
    } else {
        with_all_new(
            rects_selected(rects, (k - 1) as nat, grid, dilation, base, limit, tokens),
            rect_tokens(rects[k - 1], grid, dilation, base),
            limit,
        )
    }
}

/// The tokens of an image grid that some regions select.
pub open spec fn readout_tokens(
    rects: Seq<SparseReadoutRect>,
    grid: SparseReadoutGrid,
    options: SparseReadoutOptions,
) -> Seq<usize> {
    rects_selected(
        rects,
        rects.len(),
        grid,
        options.dilation as nat,
        0,
        options.max_tokens_per_frame,
        Seq::empty(),
    )
}

/// Selects the tokens of a list of regions.
fn push_rects(
    rects: &[SparseReadoutRect],
    grid: SparseReadoutGrid,
    dilation: usize,
    base: usize,
    limit: Option<usize>,
    seen: &mut Vec<bool>,
    tokens: &mut Vec<usize>,
)
    requires
        marks(old(seen)@, old(tokens)@),
        base + grid.cells() <= old(seen)@.len(),
    ensures
        marks(final(seen)@, final(tokens)@),
        final(seen)@.len() == old(seen)@.len(),
        final(tokens)@ == rects_selected(
            rects@,
            rects@.len(),
            grid,
            dilation as nat,
            base as nat,
            limit,
            old(tokens)@,
        ),
{
    let ghost given = tokens@;
    let mut k: usize = 0;
    while k < rects.len()
        invariant
            k <= rects@.len(),
            base + grid.cells() <= seen@.len(),
            seen@.len() == old(seen)@.len(),
            marks(seen@, tokens@),
            tokens@ == rects_selected(
                rects@,
                k as nat,
                grid,
                dilation as nat,
                base as nat,
                limit,
                given,
            ),
        decreases rects@.len() - k,
    {
        push_rect_tokens(rects[k], grid, dilation, base, limit, seen, tokens);
        k = k + 1;
    }
}

/// Projects regions onto an image grid.
pub fn readout_rects_to_tokens(
    rects: &[SparseReadoutRect],
    grid: SparseReadoutGrid,
    options: SparseReadoutOptions,
) -> (r: Result<Vec<usize>, AutoGazeError>)
    requires
        grid.cells() <= usize::MAX,
    ensures
        match r {
            Ok(tokens) => !grid.empty() && tokens@ == readout_tokens(rects@, grid, options),
            Err(error) => grid.empty() && error == AutoGazeError::EmptyReadoutGrid,
        },
{
    if grid.is_empty() {
        return Err(AutoGazeError::EmptyReadoutGrid);
    }
    let mut tokens: Vec<usize> = Vec::new();
    let mut seen: Vec<bool> = no_marks(grid.token_count());
    push_rects(
        rects,
        grid,
        options.dilation,
        0,
        options.max_tokens_per_frame,
        &mut seen,
        &mut tokens,
    );
    Ok(tokens)
}

/// The region of a fixation under the given options.
pub open spec fn point_rect(point: FixationPoint, options: SparseReadoutOptions) -> SparseReadoutRect {
    SparseReadoutRect::spec_from_bounds(
        point.spec_scaled_bounds(options.fixation_scale.larger(single(EPSILON_BITS))),
    )
}

/// The regions of the first `k` fixations: those above the confidence threshold that have an area,
/// up to the limit.
pub open spec fn point_rects(
    points: Seq<FixationPoint>,
    k: nat,
    options: SparseReadoutOptions,
) -> Seq<SparseReadoutRect>
    decreases k,
{
    if k == 0 {
        Seq::empty()
    } else {
        let before = point_rects(points, (k - 1) as nat, options);
        let point = points[k - 1];
        if unit_clamped(options.confidence_threshold).lt(point.confidence) && !(
        options.max_fixations_per_frame is Some && before.len()
            >= options.max_fixations_per_frame->0) && !point_rect(point, options).empty() {
            before.push(point_rect(point, options))
        } else {
            before
        }
    }
}

/// The regions of a frame's fixations.
pub open spec fn readout_rects(points: Seq<FixationPoint>, options: SparseReadoutOptions) -> Seq<
    SparseReadoutRect,
> {
    point_rects(points, points.len(), options)
}

/// Turns fixations into regions.
pub fn fixation_points_to_readout_rects(
    points: &[FixationPoint],
    options: SparseReadoutOptions,
) -> (r: Vec<SparseReadoutRect>)
    ensures
        r@ == readout_rects(points@, options),
{
    let threshold: Binary32 = options.confidence_threshold.clamped(
        single(ZERO_BITS),
        single(ONE_BITS),
    );
    let scale: Binary32 = options.fixation_scale.larger(single(EPSILON_BITS));
    let mut rects: Vec<SparseReadoutRect> = Vec::new();
    let mut k: usize = 0;
    while k < points.len()
        invariant
            k <= points@.len(),
            threshold == unit_clamped(options.confidence_threshold),
            scale == options.fixation_scale.larger(single(EPSILON_BITS)),
            rects@ == point_rects(points@, k as nat, options),
        decreases points@.len() - k,
    {
        let point: FixationPoint = points[k];
        let full: bool = match options.max_fixations_per_frame {
            Some(limit) => rects.len() >= limit,
            None => false,
        };
        if threshold.lt(point.confidence) && !full {
            let rect: SparseReadoutRect = SparseReadoutRect::from_bounds(
                point.scaled_bounds(scale),
            );
            if !rect.is_empty() {
                rects.push(rect);
            }
        }
        k = k + 1;
    }
    rects
}

/// Projects fixations onto an image grid.
pub fn fixation_points_to_readout_tokens(
    points: &[FixationPoint],
    grid: SparseReadoutGrid,
    options: SparseReadoutOptions,
) -> (r: Result<Vec<usize>, AutoGazeError>)
    requires
        grid.cells() <= usize::MAX,
    ensures
        match r {
            Ok(tokens) => !grid.empty() && tokens@ == readout_tokens(
                readout_rects(points@, options),
                grid,
                options,
            ),
            Err(error) => grid.empty() && error == AutoGazeError::EmptyReadoutGrid,
        },
{
    let rects: Vec<SparseReadoutRect> = fixation_points_to_readout_rects(points, options);
    readout_rects_to_tokens(&rects, grid, options)
}

/// Several lists of regions.
pub open spec fn rect_lists(lists: Seq<Vec<SparseReadoutRect>>) -> Seq<Seq<SparseReadoutRect>> {
    Seq::new(lists.len(), |i: int| lists[i]@)
}

/// Several lists of tokens.
pub open spec fn token_lists(lists: Seq<Vec<usize>>) -> Seq<Seq<usize>> {
    Seq::new(lists.len(), |i: int| lists[i]@)
}

/// The regions of the tokens of an image grid; tokens outside the grid have none.
pub open spec fn token_rects(tokens: Seq<usize>, grid: SparseReadoutGrid) -> Seq<SparseReadoutRect>
    decreases tokens.len(),
{
    if tokens.len() == 0 {
        Seq::empty()
    } else {
        let before = token_rects(tokens.drop_last(), grid);
        match grid.spec_token_rect(tokens.last() as nat) {
            Some(rect) => before.push(rect),
            None => before,
        }
    }
}

/// The regions of every frame's tokens.
pub open spec fn frame_token_rects(frames: Seq<Seq<usize>>, grid: SparseReadoutGrid) -> Seq<
    Seq<SparseReadoutRect>,
> {
    Seq::new(frames.len(), |f: int| token_rects(frames[f], grid))
}

/// The grid of one temporal bin.
pub open spec fn bin_grid(grid: SparseVideoReadoutGrid) -> SparseReadoutGrid {
    SparseReadoutGrid { height: grid.height, width: grid.width }
}

/// The most tokens of a video readout.
pub open spec fn video_limit(
    grid: SparseVideoReadoutGrid,
    options: SparseVideoReadoutOptions,
) -> usize {
    match options.max_tokens {
        Some(max) => min_int(max as int, grid.cells() as int) as usize,
        None => grid.cells() as usize,
    }
}

/// The frames that fall into the bins of the grid.
pub open spec fn frames_in_bins(
    frames: nat,
    grid: SparseVideoReadoutGrid,
    options: SparseVideoReadoutOptions,
) -> nat {
    min_int(frames as int, grid.temporal_bins * options.tubelet_size) as nat
}

/// The tokens that the regions of the first `k` frames select. The frames of a tubelet share a bin.
pub open spec fn frames_selected(
    frames: Seq<Seq<SparseReadoutRect>>,
    k: nat,
    grid: SparseVideoReadoutGrid,
    options: SparseVideoReadoutOptions,
) -> Seq<usize>
    decreases k,
{
    if k == 0 {
        Seq::empty()
    } else {
        let f = k - 1;
        rects_selected(
            frames[f],
            frames[f].len(),
            bin_grid(grid),
            options.dilation as nat,
            (f / (options.tubelet_size as int)) as nat * grid.bin_cells(),
            Some(video_limit(grid, options)),
            frames_selected(frames, (k - 1) as nat, grid, options),
        )
    }
}

/// `keep` indices spread evenly over `dense`.
pub open spec fn spread_indices(dense: nat, keep: nat) -> Seq<usize> {
    let keep = min_int(max_int(keep as int, 1), max_int(dense as int, 1));
    let last = max_int(dense - 1, 0);
    if keep == dense {
        Seq::new(dense, |i: int| i as usize)
    } else {
        Seq::new(keep as nat, |i: int| ((i * last + keep / 2) / keep) as usize)
    }
}

/// The first `n` indices.
pub open spec fn first_indices(n: nat) -> Seq<usize> {
    Seq::new(n, |i: int| i as usize)
}

/// `tokens` filled up to `target`: with evenly spread tokens first, then with the first ones.
pub open spec fn filled(tokens: Seq<usize>, count: nat, target: usize) -> Seq<usize> {
    with_all_new(
        with_all_new(tokens, spread_indices(count, target as nat), Some(target)),
        first_indices(count),
        Some(target),
    )
}

/// The tokens of a video grid that the regions of a clip's frames select.
pub open spec fn video_tokens(
    frames: Seq<Seq<SparseReadoutRect>>,
    grid: SparseVideoReadoutGrid,
    options: SparseVideoReadoutOptions,
) -> Seq<usize> {
    filled(
        frames_selected(frames, frames_in_bins(frames.len(), grid, options), grid, options),
        grid.cells(),
        min_int(options.min_tokens as int, video_limit(grid, options) as int) as usize,
    )
}

/// What is wrong with a video projection, the first thing that is.
pub open spec fn video_flaw(
    grid: SparseVideoReadoutGrid,
    options: SparseVideoReadoutOptions,
) -> Option<AutoGazeError> {
    if grid.empty() {
        Some(AutoGazeError::EmptyVideoGrid)
    } else if options.tubelet_size == 0 {
        Some(AutoGazeError::EmptyReadoutTubelet)
    } else {
        None
    }
}

/// As [`video_flaw`], where the frames hold tokens of an image grid.
pub open spec fn token_video_flaw(
    image_grid: SparseReadoutGrid,
    grid: SparseVideoReadoutGrid,
    options: SparseVideoReadoutOptions,
) -> Option<AutoGazeError> {
    if image_grid.empty() {
        Some(AutoGazeError::EmptyImageGrid)
    } else {
        video_flaw(grid, options)
    }
}

fn bounded_video_max_tokens(
    grid: SparseVideoReadoutGrid,
    options: SparseVideoReadoutOptions,
) -> (r: usize)
    requires
        !grid.empty(),
        grid.cells() <= usize::MAX,
    ensures
        r == video_limit(grid, options),
        r <= grid.cells(),
{
    proof {
        lemma_bin_fits(grid);
    }
    let count: usize = grid.token_count();
    match options.max_tokens {
        Some(max) => min_usize(max, count),
        None => count,
    }
}

fn evenly_spaced_indices(dense_len: usize, keep: usize) -> (r: Vec<usize>)
    requires
        dense_len > 0,
    ensures
        r@ == spread_indices(dense_len as nat, keep as nat),
        forall|i: int| 0 <= i < r@.len() ==> #[trigger] r@[i] < dense_len,
{
    let kept: usize = min_usize(max_usize(keep, 1), max_usize(dense_len, 1));
    let last: usize = dense_len - 1;
    let mut indices: Vec<usize> = Vec::new();
    let mut i: usize = 0;
    while i < kept
        invariant
            i <= kept <= dense_len,
            kept >= 1,
            last == dense_len - 1,
            kept == min_int(max_int(keep as int, 1), max_int(dense_len as int, 1)),
            indices@.len() == i,
            forall|k: int|
                0 <= k < i ==> #[trigger] indices@[k] == spread_indices(
                    dense_len as nat,
                    keep as nat,
                )[k],
            forall|k: int| 0 <= k < i ==> #[trigger] indices@[k] < dense_len,
        decreases kept - i,
    {
        if kept == dense_len {
            indices.push(i);
        } else {
            proof {
                assert(0 <= i * last <= 0xffff_ffff_ffff_ffff * 0xffff_ffff_ffff_ffff)
                    by (nonlinear_arith)
                    requires
                        0 <= i <= 0xffff_ffff_ffff_ffff,
                        0 <= last <= 0xffff_ffff_ffff_ffff,
                ;
                let n = i * last + kept / 2;
                assert(n / (kept as int) < dense_len) by (nonlinear_arith)
                    requires
                        n == i * last + kept / 2,
                        0 <= i,
                        i + 1 <= kept,
                        0 <= last,
                        last + 1 == dense_len,
                        kept >= 1,
                ;
                assert(n / (kept as int) >= 0) by (nonlinear_arith)
                    requires
                        n >= 0,
                        kept >= 1,
                ;
            }
            let spread: u128 = ((i as u128) * (last as u128) + (kept / 2) as u128) / (kept as u128);
            indices.push(spread as usize);
        }
        i = i + 1;
    }
    assert(indices@ =~= spread_indices(dense_len as nat, keep as nat));
    indices
}

fn push_indices(
    candidates: &Vec<usize>,
    limit: usize,
    seen: &mut Vec<bool>,
    tokens: &mut Vec<usize>,
)
    requires
        marks(old(seen)@, old(tokens)@),
        forall|i: int| 0 <= i < candidates@.len() ==> #[trigger] candidates@[i] < old(seen)@.len(),
    ensures
        marks(final(seen)@, final(tokens)@),
        final(seen)@.len() == old(seen)@.len(),
        final(tokens)@ == with_all_new(old(tokens)@, candidates@, Some(limit)),
{
    let ghost given = tokens@;
    let mut i: usize = 0;
    while i < candidates.len()
        invariant
            i <= candidates@.len(),
            seen@.len() == old(seen)@.len(),
            forall|i: int| 0 <= i < candidates@.len() ==> #[trigger] candidates@[i] < seen@.len(),
            marks(seen@, tokens@),
            tokens@ == with_new(given, candidates@, i as nat, Some(limit)),
        decreases candidates@.len() - i,
    {
        push_token(candidates[i], Some(limit), seen, tokens);
        i = i + 1;
    }
}

/// Fills the tokens up to the target.
fn fill_video_tokens(
    tokens: &mut Vec<usize>,
    seen: &mut Vec<bool>,
    count: usize,
    target: usize,
)
    requires
        marks(old(seen)@, old(tokens)@),
        count == old(seen)@.len(),
        count > 0,
    ensures
        final(tokens)@ == filled(old(tokens)@, count as nat, target),
{
    let ghost given = tokens@;
    if tokens.len() >= target {
        proof {
            lemma_full_stays(
                given,
                spread_indices(count as nat, target as nat),
                0,
                spread_indices(count as nat, target as nat).len(),
                Some(target),
            );
            lemma_full_stays(
                given,
                first_indices(count as nat),
                0,
                first_indices(count as nat).len(),
                Some(target),
            );
        }
        return ;
    }
    let spread: Vec<usize> = evenly_spaced_indices(count, target);
    push_indices(&spread, target, seen, tokens);
    let ghost middle = tokens@;
    let mut i: usize = 0;
    while i < count
        invariant
            i <= count,
            count == seen@.len(),
            marks(seen@, tokens@),
            tokens@ == with_new(middle, first_indices(count as nat), i as nat, Some(target)),
        decreases count - i,
    {
        push_token(i, Some(target), seen, tokens);
        i = i + 1;
    }
}

/// Projects the regions of a clip's frames onto a video grid.
pub fn frame_readout_rects_to_video_tokens(
    frame_rects: &[Vec<SparseReadoutRect>],
    video_grid: SparseVideoReadoutGrid,
    options: SparseVideoReadoutOptions,
) -> (r: Result<Vec<usize>, AutoGazeError>)
    requires
        video_grid.cells() <= usize::MAX,
    ensures
        match r {
            Ok(tokens) => video_flaw(video_grid, options) is None && tokens@ == video_tokens(
                rect_lists(frame_rects@),
                video_grid,
                options,
            ),
            Err(error) => video_flaw(video_grid, options) == Some(error),
        },
{
    if video_grid.is_empty() {
        return Err(AutoGazeError::EmptyVideoGrid);
    }
    if options.tubelet_size == 0 {
        return Err(AutoGazeError::EmptyReadoutTubelet);
    }
    proof {
        lemma_bin_fits(video_grid);
    }
    let limit: usize = bounded_video_max_tokens(video_grid, options);
    let count: usize = video_grid.token_count();
    let ghost lists = rect_lists(frame_rects@);
    let frames: usize = min_usize(
        frame_rects.len(),
        saturating_times(video_grid.temporal_bins, options.tubelet_size),
    );
    assert(0 <= video_grid.temporal_bins * options.tubelet_size) by (nonlinear_arith)
        requires
            video_grid.temporal_bins >= 0,
            options.tubelet_size >= 0,
    ;
    let spatial: SparseReadoutGrid = SparseReadoutGrid::new(video_grid.height, video_grid.width);
    let mut tokens: Vec<usize> = Vec::new();
    let mut seen: Vec<bool> = no_marks(count);
    let mut f: usize = 0;
    while f < frames
        invariant
            f <= frames,
            frames <= frame_rects@.len(),
            frames <= video_grid.temporal_bins * options.tubelet_size,
            options.tubelet_size > 0,
            !video_grid.empty(),
            video_grid.cells() <= usize::MAX,
            count == video_grid.cells(),
            limit == video_limit(video_grid, options),
            spatial == bin_grid(video_grid),
            lists == rect_lists(frame_rects@),
            seen@.len() == count,
            marks(seen@, tokens@),
            tokens@ == frames_selected(lists, f as nat, video_grid, options),
        decreases frames - f,
    {
        let bin: usize = f / options.tubelet_size;
        proof {
            let t = options.tubelet_size as int;
            vstd::arithmetic::div_mod::lemma_fundamental_div_mod(f as int, t);
            assert(bin < video_grid.temporal_bins) by (nonlinear_arith)
                requires
                    f == t * bin + f as int % t,
                    0 <= f as int % t,
                    f < video_grid.temporal_bins * t,
                    t > 0,
            ;
            let c = video_grid.bin_cells();
            assert(0 <= bin * c && bin * c + c <= video_grid.temporal_bins * c)
                by (nonlinear_arith)
                requires
                    0 <= bin,
                    bin + 1 <= video_grid.temporal_bins,
                    c >= 0,
            ;
            lemma_bin_fits(video_grid);
        }
        let base: usize = bin * video_grid.tokens_per_temporal_bin();
        push_rects(
            &frame_rects[f],
            spatial,
            options.dilation,
            base,
            Some(limit),
            &mut seen,
            &mut tokens,
        );
        assert(lists[f as int] == frame_rects@[f as int]@);
        f = f + 1;
    }
    let target: usize = min_usize(options.min_tokens, limit);
    fill_video_tokens(&mut tokens, &mut seen, count, target);
    Ok(tokens)
}

/// The regions of a list of tokens.
fn tokens_to_rects(tokens: &Vec<usize>, grid: SparseReadoutGrid) -> (r: Vec<SparseReadoutRect>)
    requires
        grid.cells() <= usize::MAX,
    ensures
        r@ == token_rects(tokens@, grid),
{
    let mut rects: Vec<SparseReadoutRect> = Vec::new();
    let mut i: usize = 0;
    while i < tokens.len()
        invariant
            i <= tokens@.len(),
            grid.cells() <= usize::MAX,
            rects@ == token_rects(tokens@.take(i as int), grid),
        decreases tokens@.len() - i,
    {
        assert(tokens@.take(i as int + 1).drop_last() =~= tokens@.take(i as int));
        if let Some(rect) = grid.token_rect(tokens[i]) {
            rects.push(rect);
        }
        i = i + 1;
    }
    assert(tokens@.take(i as int) =~= tokens@);
    rects
}

/// Projects the image tokens of a clip's frames onto a video grid.
pub fn frame_readout_tokens_to_video_tokens(
    frame_tokens: &[Vec<usize>],
    image_grid: SparseReadoutGrid,
    video_grid: SparseVideoReadoutGrid,
    options: SparseVideoReadoutOptions,
) -> (r: Result<Vec<usize>, AutoGazeError>)
    requires
        image_grid.cells() <= usize::MAX,
        video_grid.cells() <= usize::MAX,
    ensures
        match r {
            Ok(tokens) => token_video_flaw(image_grid, video_grid, options) is None && tokens@
                == video_tokens(
                frame_token_rects(token_lists(frame_tokens@), image_grid),
                video_grid,
                options,
            ),
            Err(error) => token_video_flaw(image_grid, video_grid, options) == Some(error),
        },
{
    if image_grid.is_empty() {
        return Err(AutoGazeError::EmptyImageGrid);
    }
    let mut frame_rects: Vec<Vec<SparseReadoutRect>> = Vec::new();
    let mut f: usize = 0;
    while f < frame_tokens.len()
        invariant
            f <= frame_tokens@.len(),
            image_grid.cells() <= usize::MAX,
            frame_rects@.len() == f,
            forall|g: int|
                0 <= g < f ==> (#[trigger] frame_rects@[g])@ == token_rects(
                    frame_tokens@[g]@,
                    image_grid,
                ),
        decreases frame_tokens@.len() - f,
    {
        frame_rects.push(tokens_to_rects(&frame_tokens[f], image_grid));
        f = f + 1;
    }
    assert(rect_lists(frame_rects@) =~= frame_token_rects(
        token_lists(frame_tokens@),
        image_grid,
    ));
    frame_readout_rects_to_video_tokens(&frame_rects, video_grid, options)
}

/// The coordinate row of a token: batch index, temporal bin, row and column.
pub open spec fn coord_row(
    grid: SparseVideoReadoutGrid,
    batch_index: nat,
    token: nat,
) -> Result<Seq<u32>, AutoGazeError> {
    match grid.coords_of(token) {
        Some((t, row, col)) => if t > u32::MAX {
            Err(AutoGazeError::TemporalBinExceedsCoordinate)
        } else if row > u32::MAX {
            Err(AutoGazeError::RowExceedsCoordinate)
        } else if col > u32::MAX {
            Err(AutoGazeError::ColumnExceedsCoordinate)
        } else {
            Ok(seq![batch_index as u32, t as u32, row as u32, col as u32])
        },
        None => Err(AutoGazeError::TokenOutsideGrid),
    }
}

/// The coordinate rows of the first `k` tokens, or what is wrong with the first token that has
/// none.
pub open spec fn coord_rows(
    tokens: Seq<usize>,
    k: nat,
    grid: SparseVideoReadoutGrid,
    batch_index: nat,
) -> Result<Seq<Seq<u32>>, AutoGazeError>
    decreases k,
{
    if k == 0 {
        Ok(Seq::empty())
    } else {
        match coord_rows(tokens, (k - 1) as nat, grid, batch_index) {
            Ok(rows) => match coord_row(grid, batch_index, tokens[k - 1] as nat) {
                Ok(row) => Ok(rows.push(row)),
                Err(error) => Err(error),
            },
            Err(error) => Err(error),
        }
    }
}

/// The coordinate rows of some tokens, or what is wrong first.
pub open spec fn video_coords(
    tokens: Seq<usize>,
    grid: SparseVideoReadoutGrid,
    batch_index: nat,
) -> Result<Seq<Seq<u32>>, AutoGazeError> {
    if grid.empty() {
        Err(AutoGazeError::EmptyVideoGrid)
    } else if batch_index > u32::MAX {
        Err(AutoGazeError::BatchExceedsCoordinate)
    } else {
        coord_rows(tokens, tokens.len(), grid, batch_index)
    }
}

/// The rows as sequences.
pub open spec fn coord_lists(coords: Seq<[u32; 4]>) -> Seq<Seq<u32>> {
    Seq::new(coords.len(), |i: int| coords[i]@)
}

/// `r` is what `expected` says.
pub open spec fn coords_are(
    r: Result<Vec<[u32; 4]>, AutoGazeError>,
    expected: Result<Seq<Seq<u32>>, AutoGazeError>,
) -> bool {
    match r {
        Ok(coords) => expected == Ok::<Seq<Seq<u32>>, AutoGazeError>(coord_lists(coords@)),
        Err(error) => expected == Err::<Seq<Seq<u32>>, AutoGazeError>(error),
    }
}

/// An error stays the error of longer lists.
proof fn lemma_coord_error(
    tokens: Seq<usize>,
    k: nat,
    n: nat,
    grid: SparseVideoReadoutGrid,
    batch_index: nat,
)
    requires
        k <= n,
        coord_rows(tokens, k, grid, batch_index) is Err,
    ensures
        coord_rows(tokens, n, grid, batch_index) == coord_rows(tokens, k, grid, batch_index),
    decreases n,
{
    if k < n {
        lemma_coord_error(tokens, k, (n - 1) as nat, grid, batch_index);
    }
}

/// Turns the tokens of a video grid into coordinate rows.
pub fn video_readout_tokens_to_coords(
    tokens: &[usize],
    grid: SparseVideoReadoutGrid,
    batch_index: usize,
) -> (r: Result<Vec<[u32; 4]>, AutoGazeError>)
    requires
        grid.cells() <= usize::MAX,
    ensures
        coords_are(r, video_coords(tokens@, grid, batch_index as nat)),
{
    if grid.is_empty() {
        return Err(AutoGazeError::EmptyVideoGrid);
    }
    if batch_index as u64 > u32::MAX as u64 {
        return Err(AutoGazeError::BatchExceedsCoordinate);
    }
    let mut coords: Vec<[u32; 4]> = Vec::new();
    let mut k: usize = 0;
    assert(coord_lists(coords@) =~= Seq::empty());
    while k < tokens.len()
        invariant
            k <= tokens@.len(),
            grid.cells() <= usize::MAX,
            !grid.empty(),
            batch_index <= u32::MAX,
            coord_rows(tokens@, k as nat, grid, batch_index as nat) == Ok::<
                Seq<Seq<u32>>,
                AutoGazeError,
            >(coord_lists(coords@)),
        decreases tokens@.len() - k,
    {
        let ghost before = coords@;
        let error: Option<AutoGazeError> = match grid.token_coords(tokens[k]) {
            Some((t, row, col)) => if t as u64 > u32::MAX as u64 {
                Some(AutoGazeError::TemporalBinExceedsCoordinate)
            } else if row as u64 > u32::MAX as u64 {
                Some(AutoGazeError::RowExceedsCoordinate)
            } else if col as u64 > u32::MAX as u64 {
                Some(AutoGazeError::ColumnExceedsCoordinate)
            } else {
                let row4: [u32; 4] = [batch_index as u32, t as u32, row as u32, col as u32];
                assert(row4@ =~= seq![batch_index as u32, t as u32, row as u32, col as u32]);
                coords.push(row4);
                assert(coord_lists(coords@) =~= coord_lists(before).push(row4@));
                None
            },
            None => Some(AutoGazeError::TokenOutsideGrid),
        };
        if let Some(error) = error {
            proof {
                assert(coord_rows(tokens@, (k + 1) as nat, grid, batch_index as nat) == Err::<
                    Seq<Seq<u32>>,
                    AutoGazeError,
                >(error));
                lemma_coord_error(
                    tokens@,
                    (k + 1) as nat,
                    tokens@.len(),
                    grid,
                    batch_index as nat,
                );
            }
            return Err(error);
        }
        k = k + 1;
    }
    Ok(coords)
}

/// Coordinate rows end to end, as a device takes them.
pub fn video_readout_coords_to_tensor(coords: &[[u32; 4]]) -> (r: Vec<i64>)
    ensures
        r@.len() == coords@.len() * 4,
        forall|i: int, j: int|
            0 <= i < coords@.len() && 0 <= j < 4 ==> #[trigger] r@[i * 4 + j] == coords@[i]@[j],
{
    let mut flat: Vec<i64> = Vec::new();
    let mut i: usize = 0;
    while i < coords.len()
        invariant
            i <= coords@.len(),
            flat@.len() == i * 4,
            forall|a: int, j: int|
                0 <= a < i && 0 <= j < 4 ==> #[trigger] flat@[a * 4 + j] == coords@[a]@[j],
        decreases coords@.len() - i,
    {
        let row: [u32; 4] = coords[i];
        flat.push(row[0] as i64);
        flat.push(row[1] as i64);
        flat.push(row[2] as i64);
        flat.push(row[3] as i64);
        i = i + 1;
    }
    flat
}

/// The coordinate rows of the first `k` batch entries, or what is wrong first.
pub open spec fn batched_coords(
    batch_tokens: Seq<Seq<usize>>,
    k: nat,
    grid: SparseVideoReadoutGrid,
) -> Result<Seq<Seq<u32>>, AutoGazeError>
    decreases k,
{
    if k == 0 {
        Ok(Seq::empty())
    } else {
        match batched_coords(batch_tokens, (k - 1) as nat, grid) {
            Ok(rows) => match video_coords(batch_tokens[k - 1], grid, (k - 1) as nat) {
                Ok(more) => Ok(rows + more),
                Err(error) => Err(error),
            },
            Err(error) => Err(error),
        }
    }
}

proof fn lemma_batched_error(
    batch_tokens: Seq<Seq<usize>>,
    k: nat,
    n: nat,
    grid: SparseVideoReadoutGrid,
)
    requires
        k <= n,
        batched_coords(batch_tokens, k, grid) is Err,
    ensures
        batched_coords(batch_tokens, n, grid) == batched_coords(batch_tokens, k, grid),
    decreases n,
{
    if k < n {
        lemma_batched_error(batch_tokens, k, (n - 1) as nat, grid);
    }
}

/// Turns the tokens of every batch entry into coordinate rows.
pub fn batched_video_readout_tokens_to_coords(
    batch_tokens: &[Vec<usize>],
    grid: SparseVideoReadoutGrid,
) -> (r: Result<Vec<[u32; 4]>, AutoGazeError>)
    requires
        grid.cells() <= usize::MAX,
    ensures
        coords_are(
            r,
            batched_coords(token_lists(batch_tokens@), batch_tokens@.len(), grid),
        ),
{
    let ghost lists = token_lists(batch_tokens@);
    let mut coords: Vec<[u32; 4]> = Vec::new();
    let mut b: usize = 0;
    assert(coord_lists(coords@) =~= Seq::empty());
    while b < batch_tokens.len()
        invariant
            b <= batch_tokens@.len(),
            grid.cells() <= usize::MAX,
            lists == token_lists(batch_tokens@),
            batched_coords(lists, b as nat, grid) == Ok::<Seq<Seq<u32>>, AutoGazeError>(
                coord_lists(coords@),
            ),
        decreases batch_tokens@.len() - b,
    {
        let ghost before = coords@;
        match video_readout_tokens_to_coords(&batch_tokens[b], grid, b) {
            Ok(more) => {
                let ghost added = more@;
                let mut more: Vec<[u32; 4]> = more;
                coords.append(&mut more);
                assert(coord_lists(coords@) =~= coord_lists(before) + coord_lists(added));
            },
            Err(error) => {
                proof {
                    assert(batched_coords(lists, (b + 1) as nat, grid) == Err::<
                        Seq<Seq<u32>>,
                        AutoGazeError,
                    >(error));
                    lemma_batched_error(lists, (b + 1) as nat, lists.len(), grid);
                }
                return Err(error);
            },
        }
        b = b + 1;
    }
    Ok(coords)
}

/// The coordinate rows of what a video projection gives, or what is wrong first.
pub open spec fn projected_coords(
    flaw: Option<AutoGazeError>,
    tokens: Seq<usize>,
    grid: SparseVideoReadoutGrid,
    batch_index: nat,
) -> Result<Seq<Seq<u32>>, AutoGazeError> {
    match flaw {
        Some(error) => Err(error),
        None => video_coords(tokens, grid, batch_index),
    }
}

/// Projects the image tokens of a clip's frames onto the coordinates of a video grid.
pub fn frame_readout_tokens_to_video_coords(
    frame_tokens: &[Vec<usize>],
    image_grid: SparseReadoutGrid,
    video_grid: SparseVideoReadoutGrid,
    options: SparseVideoReadoutOptions,
    batch_index: usize,
) -> (r: Result<Vec<[u32; 4]>, AutoGazeError>)
    requires
        image_grid.cells() <= usize::MAX,
        video_grid.cells() <= usize::MAX,
    ensures
        coords_are(
            r,
            projected_coords(
                token_video_flaw(image_grid, video_grid, options),
                video_tokens(
                    frame_token_rects(token_lists(frame_tokens@), image_grid),
                    video_grid,
                    options,
                ),
                video_grid,
                batch_index as nat,
            ),
        ),
{
    match frame_readout_tokens_to_video_tokens(frame_tokens, image_grid, video_grid, options) {
        Ok(tokens) => video_readout_tokens_to_coords(&tokens, video_grid, batch_index),
        Err(error) => Err(error),
    }
}

/// Projects the regions of a clip's frames onto the coordinates of a video grid.
pub fn frame_readout_rects_to_video_coords(
    frame_rects: &[Vec<SparseReadoutRect>],
    video_grid: SparseVideoReadoutGrid,
    options: SparseVideoReadoutOptions,
    batch_index: usize,
) -> (r: Result<Vec<[u32; 4]>, AutoGazeError>)
    requires
        video_grid.cells() <= usize::MAX,
    ensures
        coords_are(
            r,
            projected_coords(
                video_flaw(video_grid, options),
                video_tokens(rect_lists(frame_rects@), video_grid, options),
                video_grid,
                batch_index as nat,
            ),
        ),
{
    match frame_readout_rects_to_video_tokens(frame_rects, video_grid, options) {
        Ok(tokens) => video_readout_tokens_to_coords(&tokens, video_grid, batch_index),
        Err(error) => Err(error),
    }
}

proof fn lemma_rect_tokens_below(
    rect: SparseReadoutRect,
    grid: SparseReadoutGrid,
    dilation: nat,
    base: nat,
    count: nat,
    i: int,
)
    requires
        base + grid.cells() <= count <= usize::MAX,
        0 <= i < rect_tokens(rect, grid, dilation, base).len(),
    ensures
        rect_tokens(rect, grid, dilation, base)[i] < count,
{
    let (r0, r1, c0, c1) = rect_cells(rect, grid, dilation)->0;
    let cols = c1 - c0;
    vstd::arithmetic::div_mod::lemma_fundamental_div_mod(i, cols);
    assert(0 <= i / cols < r1 - r0) by (nonlinear_arith)
        requires
            i == cols * (i / cols) + i % cols,
            0 <= i % cols < cols,
            0 <= i < (r1 - r0) * cols,
            cols > 0,
    ;
    crate::readout::lemma_cell_index(
        (r0 + i / cols) as nat,
        (c0 + i % cols) as nat,
        grid.height as nat,
        grid.width as nat,
    );
}

proof fn lemma_rects_selected(
    rects: Seq<SparseReadoutRect>,
    k: nat,
    grid: SparseReadoutGrid,
    dilation: nat,
    base: nat,
    limit: Option<usize>,
    tokens: Seq<usize>,
    count: nat,
)
    requires
        base + grid.cells() <= count <= usize::MAX,
        k <= rects.len(),
        is_selection(tokens, count, limit),
    ensures
        is_selection(
            rects_selected(rects, k, grid, dilation, base, limit, tokens),
            count,
            limit,
        ),
    decreases k,
{
    if k > 0 {
        lemma_rects_selected(
            rects,
            (k - 1) as nat,
            grid,
            dilation,
            base,
            limit,
            tokens,
            count,
        );
        let before = rects_selected(
            rects,
            (k - 1) as nat,
            grid,
            dilation,
            base,
            limit,
            tokens,
        );
        let candidates = rect_tokens(rects[k - 1], grid, dilation, base);
        assert forall|i: int| 0 <= i < candidates.len() implies #[trigger] candidates[i]
            < count by {
            lemma_rect_tokens_below(rects[k - 1], grid, dilation, base, count, i);
        }
        lemma_with_new(before, candidates, candidates.len(), limit, count);
    }
}

/// An image readout selects no token twice, none outside the grid and none beyond its limit.
pub proof fn lemma_readout_tokens(
    rects: Seq<SparseReadoutRect>,
    grid: SparseReadoutGrid,
    options: SparseReadoutOptions,
)
    requires
        grid.cells() <= usize::MAX,
    ensures
        is_selection(
            readout_tokens(rects, grid, options),
            grid.cells(),
            options.max_tokens_per_frame,
        ),
{
    lemma_rects_selected(
        rects,
        rects.len(),
        grid,
        options.dilation as nat,
        0,
        options.max_tokens_per_frame,
        Seq::empty(),
        grid.cells(),
    );
}

proof fn lemma_frames_selected(
    frames: Seq<Seq<SparseReadoutRect>>,
    k: nat,
    grid: SparseVideoReadoutGrid,
    options: SparseVideoReadoutOptions,
)
    requires
        video_flaw(grid, options) is None,
        grid.cells() <= usize::MAX,
        k <= frames_in_bins(frames.len(), grid, options),
    ensures
        is_selection(
            frames_selected(frames, k, grid, options),
            grid.cells(),
            Some(video_limit(grid, options)),
        ),
    decreases k,
{
    if k > 0 {
        lemma_frames_selected(frames, (k - 1) as nat, grid, options);
        let f = k - 1;
        let t = options.tubelet_size as int;
        let bin = f / t;
        let c = grid.bin_cells();
        vstd::arithmetic::div_mod::lemma_fundamental_div_mod(f, t);
        assert(0 <= bin < grid.temporal_bins) by (nonlinear_arith)
            requires
                f == t * bin + f % t,
                0 <= f % t < t,
                0 <= f < grid.temporal_bins * t,
                t > 0,
        ;
        assert(0 <= bin * c && bin * c + c <= grid.temporal_bins * c) by (nonlinear_arith)
            requires
                0 <= bin,
                bin + 1 <= grid.temporal_bins,
                c >= 0,
        ;
        lemma_rects_selected(
            frames[f],
            frames[f].len(),
            bin_grid(grid),
            options.dilation as nat,
            bin as nat * c,
            Some(video_limit(grid, options)),
            frames_selected(frames, (k - 1) as nat, grid, options),
            grid.cells(),
        );
    }
}

/// A video readout selects no token twice, none outside the grid, none beyond its limit, and at
/// least as many as its lower bound asks for within the limit.
pub proof fn lemma_video_tokens(
    frames: Seq<Seq<SparseReadoutRect>>,
    grid: SparseVideoReadoutGrid,
    options: SparseVideoReadoutOptions,
)
    requires
        video_flaw(grid, options) is None,
        grid.cells() <= usize::MAX,
    ensures
        is_selection(
            video_tokens(frames, grid, options),
            grid.cells(),
            Some(video_limit(grid, options)),
        ),
        video_tokens(frames, grid, options).len() >= min_int(
            options.min_tokens as int,
            video_limit(grid, options) as int,
        ),
{
    lemma_bin_fits(grid);
    let count = grid.cells();
    let limit = video_limit(grid, options);
    let target = min_int(options.min_tokens as int, limit as int) as usize;
    let n = frames_in_bins(frames.len(), grid, options);
    lemma_frames_selected(frames, n, grid, options);
    let tokens = frames_selected(frames, n, grid, options);
    let spread = spread_indices(count, target as nat);
    let first = first_indices(count);
    if tokens.len() >= target {
        lemma_full_stays(tokens, spread, 0, spread.len(), Some(target));
        lemma_full_stays(tokens, first, 0, first.len(), Some(target));
    } else {
        assert forall|i: int| 0 <= i < spread.len() implies #[trigger] spread[i] < count by {
            lemma_spread_below(count, target as nat, i);
        }
        lemma_with_new(tokens, spread, spread.len(), Some(target), count);
        let middle = with_all_new(tokens, spread, Some(target));
        lemma_with_new(middle, first, first.len(), Some(target), count);
        let result = with_all_new(middle, first, Some(target));
        if result.len() < target {
            assert forall|t: int| 0 <= t < count implies result.contains(#[trigger] (t as usize)) by {
                assert(first[t] == t as usize);
            }
            lemma_covers_all(result, count);
        }
    }
}

proof fn lemma_spread_below(dense: nat, keep: nat, i: int)
    requires
        0 < dense <= usize::MAX,
        0 <= i < spread_indices(dense, keep).len(),
    ensures
        spread_indices(dense, keep)[i] < dense,
{
    let kept = min_int(max_int(keep as int, 1), max_int(dense as int, 1));
    let last = dense - 1;
    if kept != dense {
        let n = i * last + kept / 2;
        assert(0 <= n / kept < dense) by (nonlinear_arith)
            requires
                n == i * last + kept / 2,
                0 <= i,
                i + 1 <= kept,
                0 <= last,
                last + 1 == dense,
                kept >= 1,
        ;
    }
}

/// A list without duplicates that holds all of `0..count` has at least `count` entries.
proof fn lemma_covers_all(tokens: Seq<usize>, count: nat)
    requires
        tokens.no_duplicates(),
        count <= usize::MAX,
        forall|t: int| 0 <= t < count ==> tokens.contains(#[trigger] (t as usize)),
    ensures
        tokens.len() >= count,
    decreases count,
{
    if count > 0 {
        let t = (count - 1) as usize;
        assert(tokens.contains((count - 1) as usize));
        let j = choose|j: int| 0 <= j < tokens.len() && tokens[j] == t;
        let rest = tokens.remove(j);
        assert forall|a: int, b: int|
            0 <= a < rest.len() && 0 <= b < rest.len() && a != b implies rest[a] != rest[b] by {
            let a2 = if a < j {
                a
            } else {
                a + 1
            };
            let b2 = if b < j {
                b
            } else {
                b + 1
            };
            assert(tokens[a2] != tokens[b2]);
        }
        assert forall|u: int| 0 <= u < count - 1 implies rest.contains(#[trigger] (u as usize)) by {
            assert(tokens.contains(u as usize));
            let k = choose|k: int| 0 <= k < tokens.len() && tokens[k] == u as usize;
            assert(k != j);
            if k < j {
                assert(rest[k] == u as usize);
            } else {
                assert(rest[k - 1] == u as usize);
            }
        }
        lemma_covers_all(rest, (count - 1) as nat);
    }
}

/// Asking for an exact number of tokens gives that number, or all tokens where there are fewer.
pub proof fn lemma_exact_tokens(
    frames: Seq<Seq<SparseReadoutRect>>,
    grid: SparseVideoReadoutGrid,
    options: SparseVideoReadoutOptions,
    n: usize,
)
    requires
        video_flaw(grid, options) is None,
        grid.cells() <= usize::MAX,
        options.min_tokens == n,
        options.max_tokens == Some(n),
    ensures
        video_tokens(frames, grid, options).len() == min_int(n as int, grid.cells() as int),
{
    lemma_video_tokens(frames, grid, options);
}

/// What the regions select comes first and stays as it is. Other tokens are added only where that
/// is fewer than asked for.
pub proof fn lemma_video_keeps_selected(
    frames: Seq<Seq<SparseReadoutRect>>,
    grid: SparseVideoReadoutGrid,
    options: SparseVideoReadoutOptions,
)
    requires
        video_flaw(grid, options) is None,
        grid.cells() <= usize::MAX,
    ensures
        ({
            let selected = frames_selected(
                frames,
                frames_in_bins(frames.len(), grid, options),
                grid,
                options,
            );
            let tokens = video_tokens(frames, grid, options);
            &&& tokens.len() >= selected.len()
            &&& tokens.take(selected.len() as int) == selected
            &&& selected.len() >= options.min_tokens ==> tokens == selected
        }),
{
    lemma_bin_fits(grid);
    let count = grid.cells();
    let limit = video_limit(grid, options);
    let target = min_int(options.min_tokens as int, limit as int) as usize;
    let n = frames_in_bins(frames.len(), grid, options);
    lemma_frames_selected(frames, n, grid, options);
    let selected = frames_selected(frames, n, grid, options);
    let spread = spread_indices(count, target as nat);
    let first = first_indices(count);
    if selected.len() >= target {
        lemma_full_stays(selected, spread, 0, spread.len(), Some(target));
        lemma_full_stays(selected, first, 0, first.len(), Some(target));
        assert(selected.take(selected.len() as int) =~= selected);
    } else {
        assert forall|i: int| 0 <= i < spread.len() implies #[trigger] spread[i] < count by {
            lemma_spread_below(count, target as nat, i);
        }
        lemma_with_new(selected, spread, spread.len(), Some(target), count);
        let middle = with_all_new(selected, spread, Some(target));
        lemma_with_new(middle, first, first.len(), Some(target), count);
        let tokens = video_tokens(frames, grid, options);
        assert(tokens.take(selected.len() as int) =~= middle.take(selected.len() as int)) by {
            assert forall|i: int| 0 <= i < selected.len() implies tokens[i] == middle[i] by {
                assert(tokens.take(middle.len() as int)[i] == middle[i]);
            }
        }
    }
}

/// The frames that are projected are those that the bins of the grid hold, the first ones.
pub proof fn lemma_frames_in_bins(
    frames: nat,
    grid: SparseVideoReadoutGrid,
    options: SparseVideoReadoutOptions,
    f: nat,
)
    requires
        f < frames,
        options.tubelet_size > 0,
    ensures
        f < frames_in_bins(frames, grid, options) <==> f / (options.tubelet_size as nat)
            < grid.temporal_bins,
{
    let t = options.tubelet_size as int;
    let bin = f as int / t;
    let bins = grid.temporal_bins as int;
    vstd::arithmetic::div_mod::lemma_fundamental_div_mod(f as int, t);
    assert(bin < bins <==> f < bins * t) by (nonlinear_arith)
        requires
            f == t * bin + f as int % t,
            0 <= f as int % t < t,
    {
        if bin < bins {
            assert(t * (bin + 1) <= t * bins);
        } else {
            assert(t * bin >= t * bins);
        }
    }
}

/// Tokens of the grid give a region each, in their order.
pub proof fn lemma_token_rects_in_order(tokens: Seq<usize>, grid: SparseReadoutGrid, i: int)
    requires
        !grid.empty(),
        forall|j: int| 0 <= j < tokens.len() ==> #[trigger] tokens[j] < grid.cells(),
        0 <= i < tokens.len(),
    ensures
        token_rects(tokens, grid).len() == tokens.len(),
        token_rects(tokens, grid)[i] == grid.spec_token_rect(tokens[i] as nat)->0,
    decreases tokens.len(),
{
    let rest = tokens.drop_last();
    assert(tokens[tokens.len() - 1] < grid.cells());
    if rest.len() > 0 {
        lemma_token_rects_in_order(rest, grid, 0);
    } else {
        assert(token_rects(rest, grid).len() == 0);
    }
    if i < rest.len() {
        lemma_token_rects_in_order(rest, grid, i);
    }
}

/// `row` names the cell of a token: batch entry, temporal bin, row and column of the grid.
pub open spec fn names_cell(
    row: Seq<u32>,
    batch_index: nat,
    token: nat,
    grid: SparseVideoReadoutGrid,
) -> bool {
    &&& row.len() == 4
    &&& row[0] == batch_index
    &&& row[1] < grid.temporal_bins
    &&& row[2] < grid.height
    &&& row[3] < grid.width
    &&& (row[1] * grid.height + row[2]) * grid.width + row[3] == token
}

proof fn lemma_row_names_cell(grid: SparseVideoReadoutGrid, batch_index: nat, token: nat)
    requires
        !grid.empty(),
        batch_index <= u32::MAX,
        coord_row(grid, batch_index, token) is Ok,
    ensures
        names_cell(coord_row(grid, batch_index, token)->Ok_0, batch_index, token, grid),
{
    lemma_index_of_coords(grid, token);
}

/// The coordinates of some tokens come in the order of the tokens, and each names the cell of its
/// token.
pub proof fn lemma_coords_name_cells(
    tokens: Seq<usize>,
    grid: SparseVideoReadoutGrid,
    batch_index: nat,
    i: int,
)
    requires
        video_coords(tokens, grid, batch_index) is Ok,
        0 <= i < tokens.len(),
    ensures
        video_coords(tokens, grid, batch_index)->Ok_0.len() == tokens.len(),
        names_cell(
            video_coords(tokens, grid, batch_index)->Ok_0[i],
            batch_index,
            tokens[i] as nat,
            grid,
        ),
{
    lemma_rows_name_cells(tokens, tokens.len(), grid, batch_index);
}

proof fn lemma_rows_name_cells(
    tokens: Seq<usize>,
    k: nat,
    grid: SparseVideoReadoutGrid,
    batch_index: nat,
)
    requires
        !grid.empty(),
        batch_index <= u32::MAX,
        k <= tokens.len(),
        coord_rows(tokens, k, grid, batch_index) is Ok,
    ensures
        coord_rows(tokens, k, grid, batch_index)->Ok_0.len() == k,
        forall|i: int|
            0 <= i < k ==> names_cell(
                #[trigger] coord_rows(tokens, k, grid, batch_index)->Ok_0[i],
                batch_index,
                tokens[i] as nat,
                grid,
            ),
    decreases k,
{
    if k > 0 {
        lemma_rows_name_cells(tokens, (k - 1) as nat, grid, batch_index);
        lemma_row_names_cell(grid, batch_index, tokens[k - 1] as nat);
    }
}

/// The tokens of the first `k` batch entries.
pub open spec fn tokens_before(batch_tokens: Seq<Seq<usize>>, k: nat) -> nat
    decreases k,
{
    if k == 0 {
        0
    } else {
        tokens_before(batch_tokens, (k - 1) as nat) + batch_tokens[k - 1].len()
    }
}

/// The coordinates of a batch come entry by entry, and each carries its entry's index and names the
/// cell of its token.
pub proof fn lemma_batched_coords_name_cells(
    batch_tokens: Seq<Seq<usize>>,
    k: nat,
    grid: SparseVideoReadoutGrid,
    b: int,
    i: int,
)
    requires
        batched_coords(batch_tokens, k, grid) is Ok,
        0 <= b < k <= batch_tokens.len(),
        0 <= i < batch_tokens[b].len(),
    ensures
        batched_coords(batch_tokens, k, grid)->Ok_0.len() == tokens_before(batch_tokens, k),
        tokens_before(batch_tokens, b as nat) + i < tokens_before(batch_tokens, k),
        names_cell(
            batched_coords(batch_tokens, k, grid)->Ok_0[tokens_before(batch_tokens, b as nat) + i],
            b as nat,
            batch_tokens[b][i] as nat,
            grid,
        ),
    decreases k,
{
    let before = (k - 1) as nat;
    lemma_batched_len(batch_tokens, before, grid);
    lemma_batched_len(batch_tokens, k, grid);
    if b == k - 1 {
        lemma_coords_name_cells(batch_tokens[b], grid, b as nat, i);
    } else {
        lemma_batched_coords_name_cells(batch_tokens, before, grid, b, i);
    }
}

proof fn lemma_batched_len(batch_tokens: Seq<Seq<usize>>, k: nat, grid: SparseVideoReadoutGrid)
    requires
        batched_coords(batch_tokens, k, grid) is Ok,
        k <= batch_tokens.len(),
    ensures
        batched_coords(batch_tokens, k, grid)->Ok_0.len() == tokens_before(batch_tokens, k),
    decreases k,
{
    if k > 0 {
        lemma_batched_len(batch_tokens, (k - 1) as nat, grid);
        lemma_rows_name_cells(
            batch_tokens[k - 1],
            batch_tokens[k - 1].len(),
            grid,
            (k - 1) as nat,
        );
    }
}

} // verus!
