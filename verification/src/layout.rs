//! How a frame's gaze tokens are laid out over the pyramid scales.
use crate::arith::{capped, max_int, max_usize};
use crate::config::AutoGazeConfig;
use crate::ieee::{Binary32, Binary64};
use crate::root::{root_of_count, rounded_root};
use crate::trace::{single, FixationPoint, HALF_BITS, MIN_CELL_EXTENT_BITS, ONE_BITS};
use vstd::prelude::*;

verus! {

/// The tokens of one scale: a square grid of cells, row by row.
#[derive(Clone, Copy, Debug, PartialEq, Eq, Structural)]
pub struct AutoGazeScaleTokenLayout {
    pub token_count: usize,
    pub grid: usize,
}

/// The tokens of the first `k` layouts.
pub open spec fn tokens_before(layouts: Seq<AutoGazeScaleTokenLayout>, k: nat) -> nat
    decreases k,
{
    if k == 0 {
        0
    } else {
        tokens_before(layouts, (k - 1) as nat) + layouts[k - 1].token_count as nat
    }
}

/// The tokens of all layouts.
pub open spec fn total_tokens(layouts: Seq<AutoGazeScaleTokenLayout>) -> nat {
    tokens_before(layouts, layouts.len())
}

/// The scale from `k` on that holds token number `token`, and the token's index in that scale.
pub open spec fn scale_of(
    token: nat,
    layouts: Seq<AutoGazeScaleTokenLayout>,
    k: nat,
) -> Option<(nat, nat)>
    decreases layouts.len() - k,
{
    if k >= layouts.len() {
        None
    } else if token < layouts[k as int].token_count {
        Some((k, token))
    } else {
        scale_of((token - layouts[k as int].token_count) as nat, layouts, k + 1)
    }
}

/// Tokens are numbered scale by scale: a token that is found lies at its index behind the tokens
/// of the scales before, and one that is not found lies behind the last scale.
pub proof fn lemma_scale_of(token: nat, layouts: Seq<AutoGazeScaleTokenLayout>)
    ensures
        match scale_of(token, layouts, 0) {
            Some((k, local)) => k < layouts.len() && local < layouts[k as int].token_count && token
                == tokens_before(layouts, k) + local,
            None => token >= total_tokens(layouts),
        },
{
    lemma_scale_of_from(token, layouts, 0);
}

/// The token at index `local` of scale `k` is found there.
pub proof fn lemma_scale_of_inverse(
    layouts: Seq<AutoGazeScaleTokenLayout>,
    k: nat,
    local: nat,
)
    requires
        k < layouts.len(),
        local < layouts[k as int].token_count,
    ensures
        scale_of(tokens_before(layouts, k) + local, layouts, 0) == Some((k, local)),
        tokens_before(layouts, k) + local < total_tokens(layouts),
{
    let token = tokens_before(layouts, k) + local;
    lemma_scale_of(token, layouts);
    lemma_tokens_before_monotone(layouts, k + 1, layouts.len());
    match scale_of(token, layouts, 0) {
        Some((k2, _)) => {
            if k2 < k {
                lemma_tokens_before_monotone(layouts, k2 + 1, k);
            } else if k < k2 {
                lemma_tokens_before_monotone(layouts, k + 1, k2);
            }
        },
        None => {},
    }
}

proof fn lemma_tokens_before_monotone(layouts: Seq<AutoGazeScaleTokenLayout>, i: nat, j: nat)
    requires
        i <= j <= layouts.len(),
    ensures
        tokens_before(layouts, i) <= tokens_before(layouts, j),
    decreases j,
{
    if i < j {
        lemma_tokens_before_monotone(layouts, i, (j - 1) as nat);
    }
}

proof fn lemma_scale_of_from(rest: nat, layouts: Seq<AutoGazeScaleTokenLayout>, k: nat)
    requires
        k <= layouts.len(),
    ensures
        match scale_of(rest, layouts, k) {
            Some((s, local)) => k <= s < layouts.len() && local < layouts[s as int].token_count
                && tokens_before(layouts, k) + rest == tokens_before(layouts, s) + local,
            None => tokens_before(layouts, k) + rest >= total_tokens(layouts),
        },
    decreases layouts.len() - k,
{
    if k < layouts.len() && rest >= layouts[k as int].token_count {
        lemma_scale_of_from((rest - layouts[k as int].token_count) as nat, layouts, k + 1);
    }
}

/// Finds the scale that holds a token, and the token's index in that scale.
pub fn scale_token_index(token: usize, scale_layouts: &[AutoGazeScaleTokenLayout]) -> (r: Option<
    (usize, usize),
>)
    ensures
        match r {
            Some((k, local)) => scale_of(token as nat, scale_layouts@, 0) == Some(
                (k as nat, local as nat),
            ) && k < scale_layouts@.len() && local < scale_layouts@[k as int].token_count,
            None => scale_of(token as nat, scale_layouts@, 0) is None,
        },
{
    let mut rest: usize = token;
    let mut k: usize = 0;
    while k < scale_layouts.len()
        invariant
            k <= scale_layouts@.len(),
            scale_of(rest as nat, scale_layouts@, k as nat) == scale_of(
                token as nat,
                scale_layouts@,
                0,
            ),
        decreases scale_layouts@.len() - k,
    {
        let count: usize = scale_layouts[k].token_count;
        if rest < count {
            return Some((k, rest));
        }
        rest = rest - count;
        k = k + 1;
    }
    None
}

/// The side of the square grid that comes nearest to `token_count` cells, as double precision gives
/// it; at least one.
pub fn square_grid(token_count: usize) -> (r: usize)
    ensures
        r == rounded_root(max_int(token_count as int, 1) as nat),
        r >= 1,
{
    root_of_count(max_usize(token_count, 1))
}

/// The layout of a scale whose patches fill the scale's input.
pub open spec fn direct_layout(scale: nat, patch: nat) -> (nat, nat) {
    let grid = max_int((scale / patch) as int, 1) as nat;
    (grid * grid, grid)
}

/// The tokens of the first `k` scales whose patches fill their inputs.
pub open spec fn direct_total(scales: Seq<usize>, patch: nat, k: nat) -> nat
    decreases k,
{
    if k == 0 {
        0
    } else {
        direct_total(scales, patch, (k - 1) as nat) + direct_layout(
            scales[k - 1] as nat,
            patch,
        ).0
    }
}

/// The sum of the squares of the first `k` scales.
pub open spec fn sum_squares(scales: Seq<usize>, k: nat) -> nat
    decreases k,
{
    if k == 0 {
        0
    } else {
        sum_squares(scales, (k - 1) as nat) + (scales[k - 1] as nat) * (scales[k - 1] as nat)
    }
}

/// A scale's share of `n` tokens by its area, rounded down, in double precision.
pub open spec fn area_share(scale: nat, squares: nat, n: nat) -> usize {
    let share = Binary64::of_nat(scale * scale).over(
        Binary64::of_nat(max_int(squares as int, 1) as nat),
    ).times(Binary64::of_nat(n));
    share.to_usize(share.floor_int())
}

/// The area shares of the first `k` scales together.
pub open spec fn assigned_tokens(scales: Seq<usize>, squares: nat, n: nat, k: nat) -> usize
    decreases k,
{
    if k == 0 {
        0
    } else {
        capped(
            assigned_tokens(scales, squares, n, (k - 1) as nat) as nat + area_share(
                scales[k - 1] as nat,
                squares,
                n,
            ) as nat,
        )
    }
}

/// The token count of scale `i` where the patches do not fill the scales: its area share, and for
/// the last scale all that is left.
pub open spec fn shared_count(scales: Seq<usize>, n: nat, i: int) -> usize {
    let squares = sum_squares(scales, scales.len());
    if i + 1 == scales.len() {
        max_int(n - assigned_tokens(scales, squares, n, i as nat), 0) as usize
    } else {
        area_share(scales[i] as nat, squares, n)
    }
}

/// The layouts of a configuration.
pub open spec fn layouts_of(config: AutoGazeConfig) -> Seq<AutoGazeScaleTokenLayout> {
    let scales = config.scales@;
    let n = config.num_vision_tokens_each_frame as nat;
    if scales.len() == 0 {
        seq![
            AutoGazeScaleTokenLayout {
                token_count: max_int(n as int, 1) as usize,
                grid: rounded_root(max_int(n as int, 1) as nat) as usize,
            },
        ]
    } else if direct_total(scales, config.patch_size(), scales.len()) == n {
        Seq::new(
            scales.len(),
            |i: int|
                AutoGazeScaleTokenLayout {
                    token_count: direct_layout(scales[i] as nat, config.patch_size()).0 as usize,
                    grid: direct_layout(scales[i] as nat, config.patch_size()).1 as usize,
                },
        )
    } else {
        Seq::new(
            scales.len(),
            |i: int|
                AutoGazeScaleTokenLayout {
                    token_count: shared_count(scales, n, i),
                    grid: rounded_root(max_int(shared_count(scales, n, i) as int, 1) as nat) as usize,
                },
        )
    }
}

/// The token counts that a configuration asks for can be added up.
pub open spec fn layouts_fit(config: AutoGazeConfig) -> bool {
    let scales = config.scales@;
    &&& direct_total(scales, config.patch_size(), scales.len()) <= usize::MAX
    &&& direct_total(scales, config.patch_size(), scales.len())
        != config.num_vision_tokens_each_frame ==> sum_squares(scales, scales.len()) <= usize::MAX
}

proof fn lemma_sums_monotone(scales: Seq<usize>, patch: nat, i: nat, j: nat)
    requires
        i <= j <= scales.len(),
    ensures
        direct_total(scales, patch, i) <= direct_total(scales, patch, j),
        sum_squares(scales, i) <= sum_squares(scales, j),
    decreases j,
{
    if i < j {
        lemma_sums_monotone(scales, patch, i, (j - 1) as nat);
    }
}

/// The token layouts of a configuration: the patch grid of each scale where those add up to the
/// configured number of tokens, and shares of that number by area where they do not.
pub fn scale_token_layouts(config: &AutoGazeConfig) -> (r: Vec<AutoGazeScaleTokenLayout>)
    requires
        layouts_fit(*config),
    ensures
        r@ == layouts_of(*config),
{
    let n: usize = config.num_vision_tokens_each_frame;
    let scales: &Vec<usize> = &config.scales;
    let ghost sc = scales@;
    if scales.len() == 0 {
        let token_count: usize = max_usize(n, 1);
        let r: Vec<AutoGazeScaleTokenLayout> = vec![
            AutoGazeScaleTokenLayout { token_count, grid: square_grid(token_count) },
        ];
        assert(r@ =~= layouts_of(*config));
        return r;
    }
    let patch: usize = max_usize(
        config.gaze_model_config.vision_model_config.kernel_size,
        1,
    );
    let mut direct: Vec<AutoGazeScaleTokenLayout> = Vec::new();
    let mut total: usize = 0;
    let mut i: usize = 0;
    while i < scales.len()
        invariant
            sc == scales@,
            i <= sc.len(),
            patch >= 1,
            direct_total(sc, patch as nat, sc.len()) <= usize::MAX,
            total == direct_total(sc, patch as nat, i as nat),
            direct@.len() == i,
            forall|j: int|
                0 <= j < i ==> (#[trigger] direct@[j]).token_count == direct_layout(
                    sc[j] as nat,
                    patch as nat,
                ).0 && direct@[j].grid == direct_layout(sc[j] as nat, patch as nat).1,
        decreases sc.len() - i,
    {
        let grid: usize = max_usize(scales[i] / patch, 1);
        proof {
            lemma_sums_monotone(sc, patch as nat, (i + 1) as nat, sc.len());
            assert(direct_layout(sc[i as int] as nat, patch as nat).0 == grid * grid);
        }
        let token_count: usize = grid * grid;
        direct.push(AutoGazeScaleTokenLayout { token_count, grid });
        total = total + token_count;
        i = i + 1;
    }
    if total == n {
        assert(direct@ =~= layouts_of(*config));
        return direct;
    }
    let mut squares: usize = 0;
    i = 0;
    while i < scales.len()
        invariant
            sc == scales@,
            i <= sc.len(),
            sum_squares(sc, sc.len()) <= usize::MAX,
            squares == sum_squares(sc, i as nat),
        decreases sc.len() - i,
    {
        let scale: usize = scales[i];
        proof {
            lemma_sums_monotone(sc, patch as nat, (i + 1) as nat, sc.len());
            assert(0 <= scale * scale) by (nonlinear_arith)
                requires
                    scale >= 0,
            ;
        }
        squares = squares + scale * scale;
        i = i + 1;
    }
    let mut shared: Vec<AutoGazeScaleTokenLayout> = Vec::new();
    let mut assigned: usize = 0;
    i = 0;
    while i < scales.len()
        invariant
            sc == scales@,
            i <= sc.len(),
            squares == sum_squares(sc, sc.len()),
            assigned == assigned_tokens(sc, squares as nat, n as nat, i as nat),
            shared@.len() == i,
            forall|j: int|
                0 <= j < i ==> (#[trigger] shared@[j]).token_count == shared_count(sc, n as nat, j)
                    && shared@[j].grid == rounded_root(
                    max_int(shared_count(sc, n as nat, j) as int, 1) as nat,
                ),
        decreases sc.len() - i,
    {
        let scale: usize = scales[i];
        proof {
            lemma_sums_monotone(sc, patch as nat, (i + 1) as nat, sc.len());
            assert(sum_squares(sc, (i + 1) as nat) >= scale * scale);
        }
        let share: Binary64 = Binary64::from_usize(scale * scale).over(
            Binary64::from_usize(max_usize(squares, 1)),
        ).times(Binary64::from_usize(n));
        let count: usize = share.floor_usize();
        let token_count: usize = if i + 1 == scales.len() {
            n.saturating_sub(assigned)
        } else {
            count
        };
        shared.push(AutoGazeScaleTokenLayout { token_count, grid: square_grid(token_count) });
        assigned = assigned.saturating_add(count);
        i = i + 1;
    }
    assert(shared@ =~= layouts_of(*config));
    shared
}

/// The point at the centre of a cell of a square grid.
pub open spec fn cell_point(row: nat, col: nat, grid: nat, confidence: Binary32) -> FixationPoint {
    let side = Binary32::of_nat(grid);
    let cell = single(ONE_BITS).over(side).clamped(single(MIN_CELL_EXTENT_BITS), single(ONE_BITS));
    FixationPoint {
        grid: grid as usize,
        ..FixationPoint::spec_with_extent(
            Binary32::of_nat(col).plus(single(HALF_BITS)).over(side),
            Binary32::of_nat(row).plus(single(HALF_BITS)).over(side),
            cell,
            cell,
            confidence,
        )
    }
}

/// The fixation that a token stands for.
pub open spec fn token_point(
    token: nat,
    layouts: Seq<AutoGazeScaleTokenLayout>,
    confidence: Binary32,
) -> Option<FixationPoint> {
    match scale_of(token, layouts, 0) {
        Some((k, local)) => {
            let grid = max_int(layouts[k as int].grid as int, 1) as nat;
            Some(cell_point(local / grid, local % grid, grid, confidence))
        },
        None => None,
    }
}

/// The fixation that a token stands for: the centre of its cell in its scale's grid.
pub fn token_to_fixation_point(
    token: usize,
    scale_layouts: &[AutoGazeScaleTokenLayout],
    confidence: Binary32,
) -> (r: Option<FixationPoint>)
    ensures
        r == token_point(token as nat, scale_layouts@, confidence),
{
    match scale_token_index(token, scale_layouts) {
        Some((scale_idx, local)) => {
            let grid: usize = max_usize(scale_layouts[scale_idx].grid, 1);
            let row: usize = local / grid;
            let col: usize = local % grid;
            let side: Binary32 = Binary32::from_usize(grid);
            let x: Binary32 = Binary32::from_usize(col).plus(single(HALF_BITS)).over(side);
            let y: Binary32 = Binary32::from_usize(row).plus(single(HALF_BITS)).over(side);
            let cell: Binary32 = single(ONE_BITS).over(side).clamped(
                single(MIN_CELL_EXTENT_BITS),
                single(ONE_BITS),
            );
            Some(FixationPoint::with_grid_extent(x, y, cell, cell, confidence, grid))
        },
        None => None,
    }
}

proof fn lemma_shares_add_up(scales: Seq<usize>, n: nat, layouts: Seq<AutoGazeScaleTokenLayout>, k: nat)
    requires
        k < scales.len(),
        layouts.len() == scales.len(),
        forall|i: int|
            0 <= i < layouts.len() ==> (#[trigger] layouts[i]).token_count == shared_count(
                scales,
                n,
                i,
            ),
        assigned_tokens(scales, sum_squares(scales, scales.len()), n, k) < usize::MAX,
    ensures
        tokens_before(layouts, k) == assigned_tokens(
            scales,
            sum_squares(scales, scales.len()),
            n,
            k,
        ),
    decreases k,
{
    if k > 0 {
        lemma_shares_add_up(scales, n, layouts, (k - 1) as nat);
        assert(layouts[k - 1].token_count == shared_count(scales, n, k - 1));
    }
}

/// All tokens of a frame are laid out: the scales together hold as many as the configuration asks
/// for, unless the shares before the last scale are more than that already.
pub proof fn lemma_layouts_hold_all_tokens(config: AutoGazeConfig)
    requires
        config.num_vision_tokens_each_frame > 0,
        config.num_vision_tokens_each_frame < usize::MAX,
        config.scales@.len() > 0 ==> assigned_tokens(
            config.scales@,
            sum_squares(config.scales@, config.scales@.len()),
            config.num_vision_tokens_each_frame as nat,
            (config.scales@.len() - 1) as nat,
        ) <= config.num_vision_tokens_each_frame,
    ensures
        total_tokens(layouts_of(config)) == config.num_vision_tokens_each_frame,
{
    let scales = config.scales@;
    let n = config.num_vision_tokens_each_frame as nat;
    let layouts = layouts_of(config);
    if scales.len() == 0 {
        assert(tokens_before(layouts, 0) == 0);
    } else if direct_total(scales, config.patch_size(), scales.len()) == n {
        lemma_direct_tokens(scales, config.patch_size(), layouts, scales.len(), n);
    } else {
        let k = (scales.len() - 1) as nat;
        lemma_shares_add_up(scales, n, layouts, k);
        assert(layouts[k as int].token_count == shared_count(scales, n, k as int));
    }
}

proof fn lemma_direct_tokens(
    scales: Seq<usize>,
    patch: nat,
    layouts: Seq<AutoGazeScaleTokenLayout>,
    k: nat,
    n: nat,
)
    requires
        k <= scales.len(),
        layouts.len() == scales.len(),
        n <= usize::MAX,
        direct_total(scales, patch, k) <= n,
        forall|i: int|
            0 <= i < layouts.len() ==> (#[trigger] layouts[i]).token_count == direct_layout(
                scales[i] as nat,
                patch,
            ).0 as usize,
    ensures
        tokens_before(layouts, k) == direct_total(scales, patch, k),
    decreases k,
{
    if k > 0 {
        lemma_direct_tokens(scales, patch, layouts, (k - 1) as nat, n);
        assert(layouts[k - 1].token_count == direct_layout(scales[k - 1] as nat, patch).0 as usize);
    }
}

/// A scale whose patches fill its input has a square of tokens, as many a side as whole patches fit.
pub proof fn lemma_direct_layout(scale: nat, patch: nat)
    requires
        0 < patch <= scale,
    ensures
        ({
            let (count, grid) = direct_layout(scale, patch);
            &&& count == grid * grid
            &&& grid * patch <= scale < (grid + 1) * patch
        }),
{
    vstd::arithmetic::div_mod::lemma_fundamental_div_mod(scale as int, patch as int);
    let g = scale / patch;
    assert(g >= 1 && g * patch <= scale && scale < (g + 1) * patch) by (nonlinear_arith)
        requires
            scale == patch * g + scale % patch,
            0 <= scale % patch < patch,
            0 < patch <= scale,
    ;
}

} // verus!
