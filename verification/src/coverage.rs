//! How much of a frame a sequence of gaze tokens covers, and the token budget that follows.
use crate::arith::{
    bounded_common_multiple, bounded_lcm, capped, ceil_quotient, div_ceil, divides, max_int,
    max_usize, min_int, min_usize, saturating_times,
};
use crate::ieee::Binary64;
use crate::layout::{scale_of, scale_token_index, square_grid, AutoGazeScaleTokenLayout};
use crate::metrics::ONE_DOUBLE_BITS;
use crate::root::rounded_root;
use vstd::prelude::*;

verus! {

/// The largest side of the grid on which coverage is counted.
pub const MAX_COVERAGE_GRID: usize = 256;

/// The layouts that hold tokens, each with a grid of at least one cell.
pub open spec fn layouts_with_tokens(layouts: Seq<AutoGazeScaleTokenLayout>) -> Seq<
    AutoGazeScaleTokenLayout,
>
    decreases layouts.len(),
{
    if layouts.len() == 0 {
        Seq::empty()
    } else {
        let kept = layouts_with_tokens(layouts.drop_last());
        let last = layouts.last();
        if last.token_count > 0 {
            kept.push(
                AutoGazeScaleTokenLayout {
                    token_count: last.token_count,
                    grid: max_int(last.grid as int, 1) as usize,
                },
            )
        } else {
            kept
        }
    }
}

/// The layouts that hold tokens; one square layout of `fallback` tokens where there is none.
pub open spec fn normalized_layouts(
    layouts: Seq<AutoGazeScaleTokenLayout>,
    fallback: nat,
) -> Seq<AutoGazeScaleTokenLayout> {
    if layouts_with_tokens(layouts).len() == 0 {
        let count = max_int(fallback as int, 1);
        seq![
            AutoGazeScaleTokenLayout {
                token_count: count as usize,
                grid: rounded_root(count as nat) as usize,
            },
        ]
    } else {
        layouts_with_tokens(layouts)
    }
}

/// Every layout holds tokens and has a grid.
pub open spec fn layouts_normal(layouts: Seq<AutoGazeScaleTokenLayout>) -> bool {
    &&& layouts.len() > 0
    &&& forall|i: int|
        0 <= i < layouts.len() ==> (#[trigger] layouts[i]).token_count > 0 && layouts[i].grid > 0
}

/// Drops the layouts without tokens; falls back to one square layout.
pub fn normalize_scale_layouts(
    layouts: &[AutoGazeScaleTokenLayout],
    fallback_token_count: usize,
) -> (r: Vec<AutoGazeScaleTokenLayout>)
    ensures
        r@ == normalized_layouts(layouts@, fallback_token_count as nat),
        layouts_normal(r@),
{
    let mut kept: Vec<AutoGazeScaleTokenLayout> = Vec::new();
    let mut i: usize = 0;
    while i < layouts.len()
        invariant
            i <= layouts@.len(),
            kept@ == layouts_with_tokens(layouts@.take(i as int)),
            forall|j: int|
                0 <= j < kept@.len() ==> (#[trigger] kept@[j]).token_count > 0 && kept@[j].grid > 0,
        decreases layouts@.len() - i,
    {
        assert(layouts@.take(i as int + 1).drop_last() =~= layouts@.take(i as int));
        let layout: AutoGazeScaleTokenLayout = layouts[i];
        if layout.token_count > 0 {
            kept.push(
                AutoGazeScaleTokenLayout {
                    token_count: layout.token_count,
                    grid: max_usize(layout.grid, 1),
                },
            );
        }
        i = i + 1;
    }
    assert(layouts@.take(i as int) =~= layouts@);
    if kept.len() == 0 {
        let token_count: usize = max_usize(fallback_token_count, 1);
        let r: Vec<AutoGazeScaleTokenLayout> = vec![
            AutoGazeScaleTokenLayout { token_count, grid: square_grid(token_count) },
        ];
        assert(r@ =~= normalized_layouts(layouts@, fallback_token_count as nat));
        return r;
    }
    kept
}

/// The largest grid side among the first `k` layouts.
pub open spec fn largest_grid(layouts: Seq<AutoGazeScaleTokenLayout>, k: nat) -> nat
    decreases k,
{
    if k == 0 {
        0
    } else {
        max_int(
            largest_grid(layouts, (k - 1) as nat) as int,
            layouts[k - 1].grid as int,
        ) as nat
    }
}

/// The least common multiple of the grid sides of the first `k` layouts, where it does not exceed
/// the largest coverage grid.
pub open spec fn common_grid(layouts: Seq<AutoGazeScaleTokenLayout>, k: nat) -> Option<nat>
    decreases k,
{
    if k == 0 {
        Some(1)
    } else {
        match common_grid(layouts, (k - 1) as nat) {
            Some(g) => bounded_common_multiple(
                g,
                max_int(layouts[k - 1].grid as int, 1) as nat,
                MAX_COVERAGE_GRID as nat,
            ),
            None => None,
        }
    }
}

/// The side of the grid on which the coverage of the given layouts is counted.
pub open spec fn coverage_side(layouts: Seq<AutoGazeScaleTokenLayout>) -> nat {
    let largest = max_int(largest_grid(layouts, layouts.len()) as int, 1);
    match common_grid(layouts, layouts.len()) {
        Some(g) => min_int(max_int(g as int, largest), MAX_COVERAGE_GRID as int) as nat,
        None => min_int(largest, MAX_COVERAGE_GRID as int) as nat,
    }
}

/// Picks the side of the coverage grid: a common multiple of all grid sides where that is small
/// enough, else the largest side.
pub fn coverage_grid_for_layouts(layouts: &[AutoGazeScaleTokenLayout]) -> (r: usize)
    ensures
        r == coverage_side(layouts@),
        1 <= r <= MAX_COVERAGE_GRID,
{
    let mut largest: usize = 0;
    let mut i: usize = 0;
    while i < layouts.len()
        invariant
            i <= layouts@.len(),
            largest == largest_grid(layouts@, i as nat),
        decreases layouts@.len() - i,
    {
        largest = max_usize(largest, layouts[i].grid);
        i = i + 1;
    }
    let largest: usize = max_usize(largest, 1);
    let mut common: Option<usize> = Some(1);
    i = 0;
    while i < layouts.len()
        invariant
            i <= layouts@.len(),
            match common_grid(layouts@, i as nat) {
                Some(g) => common == Some(g as usize) && g <= MAX_COVERAGE_GRID,
                None => common is None,
            },
        decreases layouts@.len() - i,
    {
        common = match common {
            Some(g) => bounded_lcm(g, max_usize(layouts[i].grid, 1), MAX_COVERAGE_GRID),
            None => None,
        };
        i = i + 1;
    }
    match common {
        Some(g) => min_usize(max_usize(g, largest), MAX_COVERAGE_GRID),
        None => min_usize(largest, MAX_COVERAGE_GRID),
    }
}

/// How many flags are set.
pub open spec fn count_set(flags: Seq<bool>) -> nat
    decreases flags.len(),
{
    if flags.len() == 0 {
        0
    } else {
        count_set(flags.drop_last()) + if flags.last() {
            1nat
        } else {
            0
        }
    }
}

pub(crate) proof fn lemma_count_set_update(flags: Seq<bool>, i: int)
    requires
        0 <= i < flags.len(),
        !flags[i],
    ensures
        count_set(flags.update(i, true)) == count_set(flags) + 1,
    decreases flags.len(),
{
    let next = flags.update(i, true);
    if i == flags.len() - 1 {
        assert(next.drop_last() =~= flags.drop_last());
    } else {
        assert(next.drop_last() =~= flags.drop_last().update(i, true));
        lemma_count_set_update(flags.drop_last(), i);
    }
}

pub(crate) proof fn lemma_count_set_bounded(flags: Seq<bool>)
    ensures
        count_set(flags) <= flags.len(),
        (forall|i: int| 0 <= i < flags.len() ==> !flags[i]) ==> count_set(flags) == 0,
    decreases flags.len(),
{
    if flags.len() > 0 {
        lemma_count_set_bounded(flags.drop_last());
    }
}

/// Everything is set once the count reaches the length.
pub(crate) proof fn lemma_count_set_full(flags: Seq<bool>, i: int)
    requires
        count_set(flags) >= flags.len(),
        0 <= i < flags.len(),
    ensures
        flags[i],
    decreases flags.len(),
{
    lemma_count_set_bounded(flags.drop_last());
    if i < flags.len() - 1 {
        lemma_count_set_full(flags.drop_last(), i);
    }
}

/// The cells of a square grid, row by row, that lie in a rectangle.
pub open spec fn in_rectangle(i: int, side: int, y0: int, y1: int, x0: int, x1: int) -> bool {
    y0 <= i / side < y1 && x0 <= i % side < x1
}

/// The flags with those of a rectangle set.
pub open spec fn with_rectangle(
    flags: Seq<bool>,
    side: int,
    y0: int,
    y1: int,
    x0: int,
    x1: int,
) -> Seq<bool> {
    Seq::new(flags.len(), |i: int| flags[i] || in_rectangle(i, side, y0, y1, x0, x1))
}

/// The rectangle of coverage cells that cell `local` of a grid with `source` cells a side touches:
/// first and end row, first and end column.
pub open spec fn touched_cells(local: nat, source: nat, side: nat) -> (int, int, int, int) {
    let row = local / source;
    let col = local % source;
    (
        min_int((capped(row * side) as nat / source) as int, side as int),
        min_int(ceil_quotient(capped((row + 1) * side) as nat, source) as int, side as int),
        min_int((capped(col * side) as nat / source) as int, side as int),
        min_int(ceil_quotient(capped((col + 1) * side) as nat, source) as int, side as int),
    )
}

/// The cells of a frame that the tokens seen so far cover, and how many are enough.
pub struct CoverageModel {
    pub layouts: Seq<AutoGazeScaleTokenLayout>,
    pub grid: nat,
    pub covered: Seq<bool>,
    pub stop: nat,
}

impl CoverageModel {
    /// Enough cells are covered.
    pub open spec fn done(self) -> bool {
        count_set(self.covered) >= self.stop
    }

    /// With the cells covered that `token` touches. Nothing changes once enough are covered.
    pub open spec fn after(self, token: i64) -> CoverageModel {
        if token < 0 || self.done() {
            self
        } else {
            match scale_of(token as usize as nat, self.layouts, 0) {
                Some((k, local)) => {
                    let (y0, y1, x0, x1) = touched_cells(
                        local,
                        self.layouts[k as int].grid as nat,
                        self.grid,
                    );
                    CoverageModel {
                        covered: with_rectangle(self.covered, self.grid as int, y0, y1, x0, x1),
                        ..self
                    }
                },
                None => self,
            }
        }
    }
}

/// Counts the cells of a frame that the tokens seen so far cover.
#[derive(Clone, Debug)]
pub struct GenerationCoverageTracker {
    pub scale_layouts: Vec<AutoGazeScaleTokenLayout>,
    pub grid: usize,
    pub covered: Vec<bool>,
    pub covered_count: usize,
    pub stop_cells: usize,
}

/// The whole number of cells, rounded up, that a share of `cells` makes in double precision. The
/// share counts as one where it is larger.
pub open spec fn share_of_cells(ratio: Binary64, cells: nat) -> usize {
    let share = ratio.clamped(Binary64 { bits: 0 }, Binary64 { bits: ONE_DOUBLE_BITS }).times(
        Binary64::of_nat(cells),
    );
    share.to_usize(share.ceil_int())
}

fn cells_for_ratio(ratio: Binary64, cells: usize) -> (r: usize)
    ensures
        r == share_of_cells(ratio, cells as nat),
{
    ratio.clamped(Binary64::from_bits(0), Binary64::from_bits(ONE_DOUBLE_BITS)).times(
        Binary64::from_usize(cells),
    ).ceil_usize()
}

/// A ratio asks for a coverage stop: it is finite and above zero.
pub open spec fn ratio_positive(ratio: Binary64) -> bool {
    ratio.finite() && (Binary64 { bits: 0 }).lt(ratio)
}

impl GenerationCoverageTracker {
    /// The count agrees with the flags, and the flags with the grid.
    pub open spec fn wf(self) -> bool {
        &&& layouts_normal(self.scale_layouts@)
        &&& 1 <= self.grid <= MAX_COVERAGE_GRID
        &&& self.covered@.len() == self.grid * self.grid
        &&& self.covered_count == count_set(self.covered@)
        &&& 1 <= self.stop_cells <= self.grid * self.grid
    }

    /// Enough cells are covered.
    pub open spec fn done(self) -> bool {
        self.covered_count >= self.stop_cells
    }

    /// A fresh tracker for the given layouts and stop ratio.
    pub open spec fn fresh(
        self,
        scale_layouts: Seq<AutoGazeScaleTokenLayout>,
        stop_ratio: Binary64,
    ) -> bool {
        let layouts = normalized_layouts(scale_layouts, 1);
        let side = coverage_side(layouts);
        let share = share_of_cells(stop_ratio, side * side);
        &&& self.wf()
        &&& self.scale_layouts@ == layouts
        &&& self.grid == side
        &&& self.covered_count == 0
        &&& forall|i: int| 0 <= i < self.covered@.len() ==> !self.covered@[i]
        &&& self.stop_cells == if share < 1 {
            1
        } else if share > side * side {
            (side * side) as int
        } else {
            share as int
        }
    }

    /// A tracker that is done at a share of all cells; `None` where the ratio asks for no stop.
    pub fn new(scale_layouts: &[AutoGazeScaleTokenLayout], stop_ratio: Binary64) -> (r: Option<
        GenerationCoverageTracker,
    >)
        ensures
            match r {
                Some(tracker) => ratio_positive(stop_ratio) && tracker.fresh(
                    scale_layouts@,
                    stop_ratio,
                ),
                None => !ratio_positive(stop_ratio),
            },
    {
        if !stop_ratio.is_finite() || !Binary64::from_bits(0).lt(stop_ratio) {
            return None;
        }
        let layouts: Vec<AutoGazeScaleTokenLayout> = normalize_scale_layouts(scale_layouts, 1);
        let grid: usize = coverage_grid_for_layouts(&layouts);
        assert(1 <= grid * grid <= 65536) by (nonlinear_arith)
            requires
                1 <= grid <= 256,
        ;
        let cells: usize = grid * grid;
        let share: usize = cells_for_ratio(stop_ratio, cells);
        let stop_cells: usize = if share < 1 {
            1
        } else if share > cells {
            cells
        } else {
            share
        };
        let mut covered: Vec<bool> = Vec::new();
        while covered.len() < cells
            invariant
                covered@.len() <= cells,
                forall|i: int| 0 <= i < covered@.len() ==> !covered@[i],
            decreases cells - covered@.len(),
        {
            covered.push(false);
        }
        proof {
            lemma_count_set_bounded(covered@);
        }
        Some(
            GenerationCoverageTracker {
                scale_layouts: layouts,
                grid,
                covered,
                covered_count: 0,
                stop_cells,
            },
        )
    }

    /// What the tracker knows.
    pub open spec fn model(self) -> CoverageModel {
        CoverageModel {
            layouts: self.scale_layouts@,
            grid: self.grid as nat,
            covered: self.covered@,
            stop: self.stop_cells as nat,
        }
    }

    /// What observing `token` makes of the flags.
    pub open spec fn covered_after(self, token: i64) -> Seq<bool> {
        self.model().after(token).covered
    }

    /// Marks the cells that a token covers and tells whether enough are covered.
    pub fn observe_token(&mut self, token: i64) -> (r: bool)
        requires
            old(self).wf(),
        ensures
            final(self).wf(),
            final(self).scale_layouts == old(self).scale_layouts,
            final(self).grid == old(self).grid,
            final(self).stop_cells == old(self).stop_cells,
            final(self).covered@ == old(self).covered_after(token),
            final(self).model() == old(self).model().after(token),
            r == final(self).done(),
            r == final(self).model().done(),
    {
        if token < 0 || self.covered_count >= self.stop_cells {
            return self.covered_count >= self.stop_cells;
        }
        let located: Option<(usize, usize)> = scale_token_index(
            token as usize,
            &self.scale_layouts,
        );
        let (scale_idx, local) = match located {
            Some(found) => found,
            None => {
                return false;
            },
        };
        let grid: usize = self.grid;
        let source: usize = self.scale_layouts[scale_idx].grid;
        let row: usize = local / source;
        let col: usize = local % source;
        proof {
            assert(row < usize::MAX) by {
                let c = self.scale_layouts@[scale_idx as int].token_count;
                assert(local < c);
                assert(local / source <= local) by (nonlinear_arith)
                    requires
                        source > 0,
                        local >= 0,
                ;
            }
        }
        let y0: usize = min_usize(saturating_times(row, grid) / source, grid);
        let x0: usize = min_usize(saturating_times(col, grid) / source, grid);
        let y1: usize = min_usize(div_ceil(saturating_times(row + 1, grid), source), grid);
        let x1: usize = min_usize(div_ceil(saturating_times(col + 1, grid), source), grid);
        let ghost before = self.covered@;
        let ghost side = grid as int;
        let mut y: usize = y0;
        assert(before =~= with_rectangle(before, side, y0 as int, y0 as int, x0 as int, x1 as int));
        while y < y1
            invariant
                y0 <= y,
                y <= y1 || y == y0,
                y1 <= grid,
                x1 <= grid,
                x0 <= grid,
                grid == side,
                1 <= grid <= 256,
                self.grid == grid,
                self.scale_layouts == old(self).scale_layouts,
                self.stop_cells == old(self).stop_cells,
                self.covered@.len() == grid * grid,
                self.covered_count == count_set(self.covered@),
                before.len() == grid * grid,
                self.covered@ == with_rectangle(
                    before,
                    side,
                    y0 as int,
                    y as int,
                    x0 as int,
                    x1 as int,
                ),
            decreases y1 - y,
        {
            assert(y * grid + grid <= grid * grid && grid * grid <= 65536) by (nonlinear_arith)
                requires
                    y + 1 <= grid,
                    grid <= 256,
            ;
            let row_offset: usize = y * grid;
            let mut x: usize = x0;
            assert forall|i: int| 0 <= i < grid * grid implies !(#[trigger] in_rectangle(
                i,
                side,
                y as int,
                y + 1,
                x0 as int,
                x0 as int,
            )) by {}
            while x < x1
                invariant
                    y0 <= y < y1 <= grid,
                    x0 <= x,
                    x <= x1 || x == x0,
                    x1 <= grid,
                    grid == side,
                    1 <= grid <= 256,
                    row_offset == y * grid,
                    row_offset + grid <= grid * grid <= 65536,
                    self.grid == grid,
                    self.scale_layouts == old(self).scale_layouts,
                    self.stop_cells == old(self).stop_cells,
                    self.covered@.len() == grid * grid,
                    before.len() == grid * grid,
                    self.covered_count == count_set(self.covered@),
                    forall|i: int|
                        0 <= i < grid * grid ==> #[trigger] self.covered@[i] == (before[i]
                            || in_rectangle(i, side, y0 as int, y as int, x0 as int, x1 as int)
                            || in_rectangle(i, side, y as int, y + 1, x0 as int, x as int)),
                decreases x1 - x,
            {
                let idx: usize = row_offset + x;
                proof {
                    lemma_count_set_bounded(self.covered@);
                    vstd::arithmetic::div_mod::lemma_fundamental_div_mod_converse(
                        idx as int,
                        side,
                        y as int,
                        x as int,
                    );
                    assert forall|i: int|
                        0 <= i < grid * grid && i != idx implies in_rectangle(
                        i,
                        side,
                        y as int,
                        y + 1,
                        x0 as int,
                        x as int,
                    ) == #[trigger] in_rectangle(i, side, y as int, y + 1, x0 as int, x + 1) by {
                        if i / side == y && i % side == x {
                            vstd::arithmetic::div_mod::lemma_fundamental_div_mod(i, side);
                            assert(side * y as int == y * grid) by (nonlinear_arith)
                                requires
                                    side == grid,
                            ;
                            assert(false);
                        }
                    }
                }
                if !self.covered[idx] {
                    proof {
                        lemma_count_set_update(self.covered@, idx as int);
                        lemma_count_set_bounded(self.covered@.update(idx as int, true));
                    }
                    self.covered.set(idx, true);
                    self.covered_count = self.covered_count + 1;
                }
                x = x + 1;
            }
            proof {
                assert(self.covered@ =~= with_rectangle(
                    before,
                    side,
                    y0 as int,
                    y + 1,
                    x0 as int,
                    x1 as int,
                )) by {
                    assert forall|i: int| 0 <= i < grid * grid implies (in_rectangle(
                        i,
                        side,
                        y0 as int,
                        y as int,
                        x0 as int,
                        x1 as int,
                    ) || in_rectangle(i, side, y as int, y + 1, x0 as int, x as int))
                        == #[trigger] in_rectangle(
                        i,
                        side,
                        y0 as int,
                        y + 1,
                        x0 as int,
                        x1 as int,
                    ) by {}
                }
            }
            y = y + 1;
        }
        assert(self.covered@ =~= old(self).covered_after(token)) by {
            if y1 < y0 {
                assert forall|i: int| 0 <= i < grid * grid implies in_rectangle(
                    i,
                    side,
                    y0 as int,
                    y as int,
                    x0 as int,
                    x1 as int,
                ) == #[trigger] in_rectangle(
                    i,
                    side,
                    y0 as int,
                    y1 as int,
                    x0 as int,
                    x1 as int,
                ) by {}
            }
        }
        self.covered_count >= self.stop_cells
    }
}

/// Every tracker is well formed.
pub open spec fn trackers_wf(trackers: Option<Vec<GenerationCoverageTracker>>) -> bool {
    trackers matches Some(v) ==> forall|i: int| 0 <= i < v@.len() ==> (#[trigger] v@[i]).wf()
}

/// One fresh tracker per batch row; `None` where no coverage stop is asked for.
pub fn generation_coverage_trackers(
    batch: usize,
    stop_ratio: Option<Binary64>,
    scale_layouts: &[AutoGazeScaleTokenLayout],
) -> (r: Option<Vec<GenerationCoverageTracker>>)
    ensures
        trackers_wf(r),
        match r {
            Some(v) => stop_ratio is Some && ratio_positive(stop_ratio->0) && v@.len() == batch
                && forall|i: int|
                0 <= i < batch ==> (#[trigger] v@[i]).fresh(scale_layouts@, stop_ratio->0),
            None => stop_ratio is None || !ratio_positive(stop_ratio->0),
        },
{
    let ratio: Binary64 = match stop_ratio {
        Some(ratio) => ratio,
        None => {
            return None;
        },
    };
    if !ratio.is_finite() || !Binary64::from_bits(0).lt(ratio) {
        return None;
    }
    let mut trackers: Vec<GenerationCoverageTracker> = Vec::new();
    while trackers.len() < batch
        invariant
            ratio_positive(ratio),
            trackers@.len() <= batch,
            forall|i: int|
                0 <= i < trackers@.len() ==> (#[trigger] trackers@[i]).fresh(scale_layouts@, ratio),
        decreases batch - trackers@.len(),
    {
        match GenerationCoverageTracker::new(scale_layouts, ratio) {
            Some(tracker) => {
                trackers.push(tracker);
            },
            None => {
                return None;
            },
        }
    }
    Some(trackers)
}

/// What observing `token` in row `batch_idx` makes of the trackers, and whether that row is done.
pub open spec fn coverage_observed(
    before: Option<Vec<GenerationCoverageTracker>>,
    after: Option<Vec<GenerationCoverageTracker>>,
    batch_idx: int,
    token: i64,
    done: bool,
) -> bool {
    match (before, after) {
        (Some(old_rows), Some(new_rows)) => {
            &&& new_rows@.len() == old_rows@.len()
            &&& forall|i: int|
                0 <= i < old_rows@.len() && i != batch_idx ==> #[trigger] new_rows@[i]
                    == old_rows@[i]
            &&& 0 <= batch_idx < old_rows@.len() ==> {
                let (b, a) = (old_rows@[batch_idx], new_rows@[batch_idx]);
                &&& a.scale_layouts == b.scale_layouts
                &&& a.grid == b.grid
                &&& a.stop_cells == b.stop_cells
                &&& a.model() == b.model().after(token)
                &&& done == a.model().done()
            }
            &&& !(0 <= batch_idx < old_rows@.len()) ==> !done
        },
        (None, None) => !done,
        _ => false,
    }
}

/// Lets the row's tracker observe a token; false where the row has none.
pub fn observe_generation_coverage(
    trackers: &mut Option<Vec<GenerationCoverageTracker>>,
    batch_idx: usize,
    token: i64,
) -> (r: bool)
    requires
        trackers_wf(*old(trackers)),
    ensures
        trackers_wf(*final(trackers)),
        coverage_observed(*old(trackers), *final(trackers), batch_idx as int, token, r),
{
    match trackers {
        Some(rows) => if batch_idx < rows.len() {
            rows[batch_idx].observe_token(token)
        } else {
            false
        },
        None => false,
    }
}

/// The side of the finest grid among the first `k` layouts that hold tokens, zero where none does.
pub open spec fn finest_grid(layouts: Seq<AutoGazeScaleTokenLayout>, k: nat) -> nat
    decreases k,
{
    if k == 0 {
        0
    } else if layouts[k - 1].token_count > 0 {
        max_int(
            finest_grid(layouts, (k - 1) as nat) as int,
            max_int(layouts[k - 1].grid as int, 1),
        ) as nat
    } else {
        finest_grid(layouts, (k - 1) as nat)
    }
}

/// The generation budget: the configured one, and no more than a partial coverage stop can need on
/// the finest grid, rounded up to whole decoding steps.
pub open spec fn generation_budget(
    configured: nat,
    stop_ratio: Option<Binary64>,
    layouts: Seq<AutoGazeScaleTokenLayout>,
    num_multi_token_pred: nat,
) -> nat {
    let configured = max_int(configured as int, 1);
    let finest = finest_grid(layouts, layouts.len());
    if stop_ratio is None || !ratio_positive(stop_ratio->0) || (Binary64 {
        bits: ONE_DOUBLE_BITS,
    }).le(stop_ratio->0) || finest == 0 {
        configured as nat
    } else {
        let needed = max_int(
            share_of_cells(stop_ratio->0, capped(finest * finest) as nat) as int,
            1,
        ) as nat;
        let chunk = max_int(num_multi_token_pred as int, 1) as nat;
        min_int(configured, capped(ceil_quotient(needed, chunk) * chunk) as int) as nat
    }
}

/// The generation budget that a coverage stop leaves of the configured one.
pub fn effective_generation_max_tokens(
    configured_max_tokens: usize,
    coverage_stop_ratio: Option<Binary64>,
    scale_layouts: &[AutoGazeScaleTokenLayout],
    num_multi_token_pred: usize,
) -> (r: usize)
    ensures
        r == generation_budget(
            configured_max_tokens as nat,
            coverage_stop_ratio,
            scale_layouts@,
            num_multi_token_pred as nat,
        ),
        1 <= r <= max_int(configured_max_tokens as int, 1),
{
    let configured: usize = max_usize(configured_max_tokens, 1);
    let ratio: Binary64 = match coverage_stop_ratio {
        Some(ratio) => ratio,
        None => {
            return configured;
        },
    };
    if !ratio.is_finite() || !Binary64::from_bits(0).lt(ratio) || Binary64::from_bits(
        ONE_DOUBLE_BITS,
    ).le(ratio) {
        return configured;
    }
    let mut finest: usize = 0;
    let mut i: usize = 0;
    while i < scale_layouts.len()
        invariant
            i <= scale_layouts@.len(),
            finest == finest_grid(scale_layouts@, i as nat),
        decreases scale_layouts@.len() - i,
    {
        if scale_layouts[i].token_count > 0 {
            finest = max_usize(finest, max_usize(scale_layouts[i].grid, 1));
        }
        i = i + 1;
    }
    if finest == 0 {
        return configured;
    }
    let cells: usize = saturating_times(finest, finest);
    let needed: usize = max_usize(cells_for_ratio(ratio, cells), 1);
    let chunk: usize = max_usize(num_multi_token_pred, 1);
    let aligned: usize = saturating_times(div_ceil(needed, chunk), chunk);
    proof {
        crate::arith::lemma_ceil_quotient(needed as nat, chunk as nat);
    }
    min_usize(configured, aligned)
}

/// Where the grid sides have a small enough common multiple, each of them divides the side of the
/// coverage grid, so no token covers a part of a coverage cell.
pub proof fn lemma_coverage_side_aligned(layouts: Seq<AutoGazeScaleTokenLayout>, i: int)
    requires
        layouts_normal(layouts),
        common_grid(layouts, layouts.len()) is Some,
        0 <= i < layouts.len(),
    ensures
        divides(layouts[i].grid as nat, coverage_side(layouts)),
{
    lemma_common_grid(layouts, layouts.len());
    lemma_largest_grid(layouts, layouts.len());
    let g = common_grid(layouts, layouts.len())->0;
    assert(g >= largest_grid(layouts, layouts.len())) by {
        let j = lemma_largest_is_one(layouts, layouts.len());
        let d = layouts[j].grid as nat;
        assert(divides(d, g));
        vstd::arithmetic::div_mod::lemma_fundamental_div_mod(g as int, d as int);
        assert(g >= d) by (nonlinear_arith)
            requires
                g == d * (g / d),
                g > 0,
                d > 0,
        ;
    }
}

proof fn lemma_largest_is_one(layouts: Seq<AutoGazeScaleTokenLayout>, k: nat) -> (j: int)
    requires
        0 < k <= layouts.len(),
    ensures
        0 <= j < k,
        layouts[j].grid == largest_grid(layouts, k),
    decreases k,
{
    if k == 1 {
        assert(largest_grid(layouts, 0) == 0);
        0
    } else {
        let j = lemma_largest_is_one(layouts, (k - 1) as nat);
        if layouts[k - 1].grid >= layouts[j].grid {
            k - 1
        } else {
            j
        }
    }
}

proof fn lemma_largest_grid(layouts: Seq<AutoGazeScaleTokenLayout>, k: nat)
    requires
        k <= layouts.len(),
    ensures
        forall|j: int| 0 <= j < k ==> (#[trigger] layouts[j]).grid <= largest_grid(layouts, k),
    decreases k,
{
    if k > 0 {
        lemma_largest_grid(layouts, (k - 1) as nat);
    }
}

proof fn lemma_common_grid(layouts: Seq<AutoGazeScaleTokenLayout>, k: nat)
    requires
        layouts_normal(layouts),
        k <= layouts.len(),
        common_grid(layouts, k) is Some,
    ensures
        0 < common_grid(layouts, k)->0 <= MAX_COVERAGE_GRID,
        forall|j: int|
            0 <= j < k ==> divides((#[trigger] layouts[j]).grid as nat, common_grid(layouts, k)->0),
    decreases k,
{
    if k > 0 {
        lemma_common_grid(layouts, (k - 1) as nat);
        let g = common_grid(layouts, (k - 1) as nat)->0;
        let d = layouts[k - 1].grid as nat;
        crate::arith::lemma_euclid(g, d);
        let e = crate::arith::euclid(g, d);
        let m = common_grid(layouts, k)->0;
        let q = g / e;
        vstd::arithmetic::div_mod::lemma_fundamental_div_mod(g as int, e as int);
        vstd::arithmetic::div_mod::lemma_fundamental_div_mod(d as int, e as int);
        let f = d / e;
        assert(m == q * d);
        assert(m == g * f) by (nonlinear_arith)
            requires
                m == q * d,
                g == e * q,
                d == e * f,
        ;
        assert(q > 0) by (nonlinear_arith)
            requires
                g == e * q,
                g > 0,
                e > 0,
        ;
        assert(m > 0) by (nonlinear_arith)
            requires
                m == q * d,
                q > 0,
                d > 0,
        ;
        vstd::arithmetic::div_mod::lemma_fundamental_div_mod_converse(
            m as int,
            d as int,
            q as int,
            0,
        );
        assert forall|j: int| 0 <= j < k implies divides(
            (#[trigger] layouts[j]).grid as nat,
            m,
        ) by {
            if j < k - 1 {
                let dj = layouts[j].grid as nat;
                assert(divides(dj, g));
                vstd::arithmetic::div_mod::lemma_fundamental_div_mod(g as int, dj as int);
                let t = g / dj;
                assert(m == (t * f) * dj + 0) by (nonlinear_arith)
                    requires
                        m == g * f,
                        g == dj * t,
                ;
                vstd::arithmetic::div_mod::lemma_fundamental_div_mod_converse(
                    m as int,
                    dj as int,
                    (t * f) as int,
                    0,
                );
            }
        }
    }
}

/// Observing a token never uncovers a cell, and changes nothing once enough cells are covered.
pub proof fn lemma_coverage_grows(tracker: GenerationCoverageTracker, token: i64)
    requires
        tracker.wf(),
    ensures
        tracker.covered_after(token).len() == tracker.covered@.len(),
        forall|i: int|
            0 <= i < tracker.covered@.len() && tracker.covered@[i]
                ==> #[trigger] tracker.covered_after(token)[i],
        tracker.done() ==> tracker.covered_after(token) == tracker.covered@,
{
}

/// Once the tracker waits for every cell and is done, every cell is covered.
pub proof fn lemma_full_coverage(tracker: GenerationCoverageTracker, i: int)
    requires
        tracker.wf(),
        tracker.stop_cells == tracker.grid * tracker.grid,
        tracker.done(),
        0 <= i < tracker.covered@.len(),
    ensures
        tracker.covered@[i],
{
    lemma_count_set_full(tracker.covered@, i);
}

/// The layouts that are counted are those that hold tokens, with their counts and their grids.
pub proof fn lemma_layouts_with_tokens(layouts: Seq<AutoGazeScaleTokenLayout>)
    ensures
        ({
            let kept = layouts_with_tokens(layouts);
            &&& forall|j: int|
                0 <= j < kept.len() ==> (#[trigger] kept[j]).token_count > 0 && kept[j].grid > 0
            &&& forall|i: int|
                0 <= i < layouts.len() && (#[trigger] layouts[i]).token_count > 0
                    && layouts[i].grid > 0 ==> kept.contains(layouts[i])
            &&& kept.len() <= layouts.len()
        }),
    decreases layouts.len(),
{
    if layouts.len() > 0 {
        let rest = layouts.drop_last();
        lemma_layouts_with_tokens(rest);
        let before = layouts_with_tokens(rest);
        let kept = layouts_with_tokens(layouts);
        assert forall|j: int| 0 <= j < kept.len() implies (#[trigger] kept[j]).token_count > 0
            && kept[j].grid > 0 by {
            if j < before.len() {
                assert(kept[j] == before[j]);
            }
        }
        assert forall|i: int|
            0 <= i < layouts.len() && (#[trigger] layouts[i]).token_count > 0 && layouts[i].grid
                > 0 implies kept.contains(layouts[i]) by {
            if i < rest.len() {
                assert(rest[i] == layouts[i]);
                let j = choose|j: int| 0 <= j < before.len() && before[j] == layouts[i];
                assert(kept[j] == layouts[i]);
            } else {
                assert(kept[before.len() as int] == layouts[i]);
            }
        }
    }
}

} // verus!
