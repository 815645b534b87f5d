//! What a device selects is what the host selects.
//!
//! A device goes on selecting for a whole chunk before anything is read back. The tokens and the
//! validity that are then read back are those that the host selects step by step from the same
//! scores; only the confidences differ, which a device gives as marks of validity.
use crate::arith::min_int;
use crate::decode::RowModel;
use crate::device::{
    chunk_result, lemma_padding_is_block, rows_count, rows_finished, rows_stepped, step_width,
};
use crate::device_select::{
    all_taken, best_counts, device_best, device_block, device_step, flags_match,
    lemma_device_selection_matches_host, masked_score, scores_count, DeviceGreedySelectionConfig,
    DeviceRow,
};
use crate::generation::lemma_longest_selection;
use crate::ieee::Binary32;
use crate::selection::{
    disallowed, lemma_best_token, lemma_row_selection, longest_selection, padded, row_active,
    row_selection,
    GreedyTokenSelection, RowRules, RowScores, RowSelection, TaskLossStop,
};
use crate::trace::{single, ONE_BITS, ZERO_BITS};
use vstd::prelude::*;

verus! {

/// The scores of a frame: those of each step for each row.
pub type FrameScores = spec_fn(int, int) -> RowScores;

/// The rules of step `k` of a frame. Only the first step is the first of its frame.
pub open spec fn step_config(
    config: DeviceGreedySelectionConfig,
    k: nat,
) -> DeviceGreedySelectionConfig {
    DeviceGreedySelectionConfig {
        task_loss_stop: TaskLossStop {
            is_first_token: config.task_loss_stop.is_first_token && k == 0,
            ..config.task_loss_stop
        },
        ..config
    }
}

/// What is fixed for a row while the host selects step `k`.
pub open spec fn host_rules(
    row: RowModel,
    config: DeviceGreedySelectionConfig,
    k: nat,
) -> RowRules {
    RowRules {
        prior: row.tokens,
        finished: row.finished,
        eos: config.eos_token_id,
        max_tokens: config.max_tokens as nat,
        stop: step_config(config, k).task_loss_stop,
        apart: false,
    }
}

/// What the host selects for every row in step `k`.
pub open spec fn host_selections(
    rows: Seq<RowModel>,
    scores: FrameScores,
    config: DeviceGreedySelectionConfig,
    m: nat,
    k: nat,
) -> spec_fn(int) -> RowSelection {
    |b: int| row_selection(scores(k as int, b), host_rules(rows[b], config, k), m)
}

/// The width of the block that the host selects in step `k`.
pub open spec fn host_width(
    rows: Seq<RowModel>,
    scores: FrameScores,
    config: DeviceGreedySelectionConfig,
    m: nat,
    k: nat,
) -> nat {
    longest_selection(host_selections(rows, scores, config, m, k), rows.len())
}

/// A row with a selection, padded to the width of its block.
pub open spec fn with_selection(
    row: RowModel,
    selection: RowSelection,
    width: nat,
    eos: i64,
) -> RowModel {
    row.taken_block(
        padded(selection.tokens, width, eos),
        padded(selection.valid, width, false),
        padded(selection.confidences, width, single(ZERO_BITS)),
        width,
    )
}

/// The rows after the host took the block of step `k`.
pub open spec fn host_step(
    rows: Seq<RowModel>,
    scores: FrameScores,
    config: DeviceGreedySelectionConfig,
    m: nat,
    k: nat,
) -> Seq<RowModel> {
    Seq::new(
        rows.len(),
        |b: int|
            with_selection(
                rows[b],
                host_selections(rows, scores, config, m, k)(b),
                host_width(rows, scores, config, m, k),
                config.eos_token_id,
            ),
    )
}

/// The frame takes no more tokens.
pub open spec fn frame_ends(rows: Seq<RowModel>, config: DeviceGreedySelectionConfig) -> bool {
    rows_count(rows) >= config.max_tokens || rows_finished(rows)
}

/// The rows after the host took the blocks of the steps from `k` to `until`, or up to where the
/// frame takes no more tokens.
pub open spec fn host_steps(
    rows: Seq<RowModel>,
    scores: FrameScores,
    config: DeviceGreedySelectionConfig,
    m: nat,
    k: nat,
    until: nat,
) -> Seq<RowModel>
    decreases until - k,
{
    if k >= until || frame_ends(rows, config) {
        rows
    } else {
        host_steps(host_step(rows, scores, config, m, k), scores, config, m, k + 1, until)
    }
}

/// The tokens that the rows can still take in a frame.
pub open spec fn room_left(rows: Seq<RowModel>, config: DeviceGreedySelectionConfig) -> nat {
    if rows_count(rows) < config.max_tokens {
        (config.max_tokens - rows_count(rows)) as nat
    } else {
        0
    }
}

/// The rows at the end of the frame, where the host goes on from step `k`: it ends when it takes no
/// more tokens, or selects none.
pub open spec fn host_frame(
    rows: Seq<RowModel>,
    scores: FrameScores,
    config: DeviceGreedySelectionConfig,
    m: nat,
    k: nat,
) -> Seq<RowModel>
    decreases room_left(rows, config),
{
    if frame_ends(rows, config) || host_width(rows, scores, config, m, k) == 0 {
        rows
    } else {
        proof {
            lemma_step_takes_width(rows, scores, config, m, k);
        }
        host_frame(host_step(rows, scores, config, m, k), scores, config, m, k + 1)
    }
}

/// The scores of step `k` decide what is selected: for every row that takes tokens the best score
/// counts, and some row has tokens left to fill the block.
pub open spec fn block_decided(
    rows: Seq<RowModel>,
    scores: FrameScores,
    config: DeviceGreedySelectionConfig,
    vocab: nat,
    m: nat,
    k: nat,
) -> bool {
    &&& 0 < host_width(rows, scores, config, m, k)
    &&& host_width(rows, scores, config, m, k) == step_width(rows, m, config.max_tokens as nat)
    &&& forall|b: int|
        0 <= b < rows.len() ==> (#[trigger] scores(k as int, b)).vocab == vocab && scores_count(
            scores(k as int, b),
            host_rules(rows[b], config, k),
            m,
        )
}

/// The scores of every step from `k` to the end of the frame decide what is selected.
pub open spec fn frame_decided(
    rows: Seq<RowModel>,
    scores: FrameScores,
    config: DeviceGreedySelectionConfig,
    vocab: nat,
    m: nat,
    k: nat,
) -> bool
    decreases room_left(rows, config),
{
    if frame_ends(rows, config) {
        true
    } else if !block_decided(rows, scores, config, vocab, m, k) {
        false
    } else {
        proof {
            lemma_step_takes_width(rows, scores, config, m, k);
        }
        frame_decided(host_step(rows, scores, config, m, k), scores, config, vocab, m, k + 1)
    }
}

/// The flags of a row of which nothing is taken: only the end token is ruled out.
pub open spec fn open_flags(eos: i64, vocab: nat) -> Seq<bool> {
    Seq::new(vocab, |v: int| disallowed(eos, Seq::empty(), Seq::empty(), v as nat))
}

/// The flags of a row before step `k` of its frame on a device, and whether it takes no more
/// tokens.
pub open spec fn device_state(
    scores: FrameScores,
    config: DeviceGreedySelectionConfig,
    vocab: nat,
    m: nat,
    b: int,
    k: nat,
) -> (Seq<bool>, bool)
    decreases k, 0nat,
{
    if k == 0 {
        (open_flags(config.eos_token_id, vocab), false)
    } else {
        let before = device_state(scores, config, vocab, m, b, (k - 1) as nat);
        let block = device_slots(scores, config, vocab, m, b, (k - 1) as nat);
        (block.disallowed, before.1 || block.valid.contains(false))
    }
}

/// What the device selects for a row in step `k` of its frame. It goes on from step to step,
/// however often it is read back.
pub open spec fn device_slots(
    scores: FrameScores,
    config: DeviceGreedySelectionConfig,
    vocab: nat,
    m: nat,
    b: int,
    k: nat,
) -> DeviceRow
    decreases k, 1nat,
{
    let before = device_state(scores, config, vocab, m, b, k);
    device_block(scores(k as int, b), step_config(config, k), k * m, before.0, before.1, m)
}

/// A chunk as it is read back holds, step after step, what the device selected from step `from` of
/// the frame on.
pub open spec fn reads_back(
    selection: GreedyTokenSelection,
    batch: nat,
    scores: FrameScores,
    config: DeviceGreedySelectionConfig,
    vocab: nat,
    m: nat,
    from: nat,
    steps: nat,
) -> bool {
    forall|b: int, i: nat|
        0 <= b < batch && i < steps ==> {
            let slots = #[trigger] device_slots(scores, config, vocab, m, b, from + i);
            &&& selection.tokens@[b]@.subrange((i * m) as int, (i * m + m) as int) == slots.tokens
            &&& selection.valid@[b]@.subrange((i * m) as int, (i * m + m) as int) == slots.valid
            &&& i * m + m <= selection.tokens@[b]@.len()
            &&& i * m + m <= selection.valid@[b]@.len()
        }
}

/// The confidence of a slot that was selected on a device: a mark of its validity.
pub open spec fn validity_mark(valid: bool) -> Binary32 {
    single(
        if valid {
            ONE_BITS
        } else {
            ZERO_BITS
        },
    )
}

/// The confidences of a chunk are marks of validity.
pub open spec fn selection_marked(selection: GreedyTokenSelection, batch: nat) -> bool {
    forall|b: int, i: int|
        0 <= b < batch && 0 <= i < selection.valid@[b]@.len()
            ==> #[trigger] selection.confidences@[b]@[i] == validity_mark(
            selection.valid@[b]@[i],
        )
}

/// The confidences of a row are marks of validity.
pub open spec fn row_marked(row: RowModel) -> bool {
    &&& row.confidences.len() == row.padded.len()
    &&& forall|i: int|
        0 <= i < row.padded.len() ==> #[trigger] row.confidences[i] == validity_mark(
            !row.padded[i],
        )
}

/// The confidences of all rows are marks of validity.
pub open spec fn rows_marked(rows: Seq<RowModel>) -> bool {
    forall|b: int| 0 <= b < rows.len() ==> row_marked(#[trigger] rows[b])
}

/// The rows have taken the same tokens with the same validity.
pub open spec fn same_but_confidence(one: RowModel, other: RowModel) -> bool {
    &&& one.tokens == other.tokens
    &&& one.padded == other.padded
    &&& one.finished == other.finished
    &&& one.coverage == other.coverage
}

/// All rows have taken the same tokens with the same validity.
pub open spec fn rows_same(one: Seq<RowModel>, other: Seq<RowModel>) -> bool {
    one.len() == other.len() && forall|b: int|
        0 <= b < one.len() ==> same_but_confidence(#[trigger] one[b], other[b])
}

/// All rows have taken `count` tokens.
pub open spec fn rows_even(rows: Seq<RowModel>, count: nat) -> bool {
    forall|b: int| 0 <= b < rows.len() ==> (#[trigger] rows[b]).tokens.len() == count
}

/// Taking the same tokens with the same validity keeps rows the same, whatever the confidences.
proof fn lemma_same_blocks(
    one: RowModel,
    other: RowModel,
    tokens: Seq<i64>,
    valid: Seq<bool>,
    confidences: Seq<Binary32>,
    other_tokens: Seq<i64>,
    other_valid: Seq<bool>,
    other_confidences: Seq<Binary32>,
    n: nat,
)
    requires
        same_but_confidence(one, other),
        forall|i: int| 0 <= i < n ==> #[trigger] tokens[i] == other_tokens[i],
        forall|i: int| 0 <= i < n ==> #[trigger] valid[i] == other_valid[i],
    ensures
        same_but_confidence(
            one.taken_block(tokens, valid, confidences, n),
            other.taken_block(other_tokens, other_valid, other_confidences, n),
        ),
    decreases n,
{
    if n > 0 {
        lemma_same_blocks(
            one,
            other,
            tokens,
            valid,
            confidences,
            other_tokens,
            other_valid,
            other_confidences,
            (n - 1) as nat,
        );
        assert(tokens[n - 1] == other_tokens[n - 1]);
        assert(valid[n - 1] == other_valid[n - 1]);
    }
}

/// A row that takes an invalid slot is finished.
proof fn lemma_invalid_finishes(
    row: RowModel,
    tokens: Seq<i64>,
    valid: Seq<bool>,
    confidences: Seq<Binary32>,
    n: nat,
    i: int,
)
    requires
        0 <= i < n,
        !valid[i],
    ensures
        row.taken_block(tokens, valid, confidences, n).finished,
    decreases n,
{
    if i < n - 1 {
        lemma_invalid_finishes(row, tokens, valid, confidences, (n - 1) as nat, i);
    }
}

/// A row that takes a block has its tokens behind its own, and stays finished if it was.
pub(crate) proof fn lemma_stays_finished(
    row: RowModel,
    tokens: Seq<i64>,
    valid: Seq<bool>,
    confidences: Seq<Binary32>,
    n: nat,
)
    ensures
        row.finished ==> row.taken_block(tokens, valid, confidences, n).finished,
        row.taken_block(tokens, valid, confidences, n).tokens.len() == row.tokens.len() + n,
        n <= tokens.len() ==> row.taken_block(tokens, valid, confidences, n).tokens
            == row.tokens + tokens.take(n as int),
    decreases n,
{
    if n > 0 {
        lemma_stays_finished(row, tokens, valid, confidences, (n - 1) as nat);
    }
    if n <= tokens.len() {
        assert(row.taken_block(tokens, valid, confidences, n).tokens =~= row.tokens + tokens.take(
            n as int,
        ));
    }
}

/// A finished row selects nothing.
proof fn lemma_finished_selects_nothing(row: RowScores, rules: RowRules, m: nat)
    requires
        rules.finished,
    ensures
        row_selection(row, rules, m).tokens.len() == 0,
        row_selection(row, rules, m).valid.len() == 0,
    decreases m,
{
    if m > 0 {
        lemma_finished_selects_nothing(row, rules, (m - 1) as nat);
    }
}

/// A block that the host takes adds its width to every row.
pub proof fn lemma_step_takes_width(
    rows: Seq<RowModel>,
    scores: FrameScores,
    config: DeviceGreedySelectionConfig,
    m: nat,
    k: nat,
)
    ensures
        ({
            let next = host_step(rows, scores, config, m, k);
            let w = host_width(rows, scores, config, m, k);
            &&& forall|b: int|
                0 <= b < rows.len() ==> (#[trigger] next[b]).tokens.len() == rows[b].tokens.len()
                    + w
            &&& rows.len() > 0 ==> rows_count(next) == rows_count(rows) + w
            &&& !frame_ends(rows, config) ==> rows.len() > 0
        }),
{
    let next = host_step(rows, scores, config, m, k);
    let w = host_width(rows, scores, config, m, k);
    assert forall|b: int| 0 <= b < rows.len() implies (#[trigger] next[b]).tokens.len()
        == rows[b].tokens.len() + w by {
        let selection = host_selections(rows, scores, config, m, k)(b);
        lemma_stays_finished(
            rows[b],
            padded(selection.tokens, w, config.eos_token_id),
            padded(selection.valid, w, false),
            padded(selection.confidences, w, single(ZERO_BITS)),
            w,
        );
    }
    if rows.len() > 0 {
        assert(next[0].tokens.len() == rows[0].tokens.len() + w);
    }
}

/// In every slot that a row can still fill, the best score counts and belongs to a token that is
/// left.
pub open spec fn scores_left(row: RowScores, rules: RowRules, m: nat) -> bool {
    &&& scores_count(row, rules, m)
    &&& forall|j: nat|
        j < m && row_active(rules, #[trigger] row_selection(row, rules, j)) ==> !all_taken(
            rules,
            row_selection(row, rules, j).picked,
            row.vocab,
        )
}

/// A row that has scores left fills the first `n` slots of its block, as far as there is room.
proof fn lemma_scores_fill(row: RowScores, rules: RowRules, n: nat, m: nat)
    requires
        scores_left(row, rules, m),
        n <= m,
        !rules.finished,
        rules.prior.len() <= rules.max_tokens,
    ensures
        !row_selection(row, rules, n).halted,
        row_selection(row, rules, n).tokens.len() == min_int(
            n as int,
            rules.max_tokens - rules.prior.len(),
        ),
    decreases n,
{
    if n > 0 {
        let j = (n - 1) as nat;
        lemma_scores_fill(row, rules, j, m);
        let state = row_selection(row, rules, j);
        if row_active(rules, state) {
            let base = row.row_base + j * row.vocab;
            assert(best_counts(row, rules, state.picked, j as int));
            lemma_best_token(
                row.scores,
                base,
                rules.eos,
                rules.prior,
                state.picked,
                row.vocab,
            );
        }
    }
}

/// The longest selection is no longer than what bounds every row.
proof fn lemma_longest_within(rows: spec_fn(int) -> RowSelection, k: nat, bound: nat)
    requires
        forall|b: int| 0 <= b < k ==> (#[trigger] rows(b)).tokens.len() <= bound,
    ensures
        longest_selection(rows, k) <= bound,
    decreases k,
{
    if k > 0 {
        lemma_longest_within(rows, (k - 1) as nat, bound);
        assert(rows(k - 1).tokens.len() <= bound);
    }
}

/// Where every row that takes tokens has scores left, the scores decide what is selected.
pub proof fn lemma_scores_left_decide(
    rows: Seq<RowModel>,
    scores: FrameScores,
    config: DeviceGreedySelectionConfig,
    vocab: nat,
    m: nat,
    k: nat,
)
    requires
        m > 0,
        vocab <= i64::MAX,
        vocab <= usize::MAX,
        !frame_ends(rows, config),
        rows_even(rows, rows_count(rows)),
        forall|b: int|
            0 <= b < rows.len() ==> (#[trigger] scores(k as int, b)).vocab == vocab && scores_left(
                scores(k as int, b),
                host_rules(rows[b], config, k),
                m,
            ),
    ensures
        block_decided(rows, scores, config, vocab, m, k),
{
    let width = step_width(rows, m, config.max_tokens as nat);
    let selections = host_selections(rows, scores, config, m, k);
    assert forall|b: int| 0 <= b < rows.len() implies (#[trigger] selections(b)).tokens.len()
        <= width by {
        assert(scores(k as int, b).vocab == vocab);
        assert(rows[b].tokens.len() == rows_count(rows));
        lemma_row_selection(scores(k as int, b), host_rules(rows[b], config, k), m);
    }
    lemma_longest_within(selections, rows.len(), width);
    let b = choose|b: int| 0 <= b < rows.len() && !(#[trigger] rows[b]).finished;
    assert(scores(k as int, b).vocab == vocab);
    assert(rows[b].tokens.len() == rows_count(rows));
    lemma_scores_fill(scores(k as int, b), host_rules(rows[b], config, k), m, m);
    lemma_longest_selection(selections, rows.len(), b);
}

/// Where the host takes the blocks of some steps first, the frame ends as it does without a stop.
pub proof fn lemma_steps_lead_to_frame(
    rows: Seq<RowModel>,
    scores: FrameScores,
    config: DeviceGreedySelectionConfig,
    vocab: nat,
    m: nat,
    k: nat,
    until: nat,
)
    requires
        k <= until,
        frame_decided(rows, scores, config, vocab, m, k),
    ensures
        ({
            let after = host_steps(rows, scores, config, m, k, until);
            &&& host_frame(after, scores, config, m, until) == host_frame(
                rows,
                scores,
                config,
                m,
                k,
            )
            &&& frame_decided(after, scores, config, vocab, m, until)
        }),
    decreases until - k,
{
    if k < until && !frame_ends(rows, config) {
        let next = host_step(rows, scores, config, m, k);
        lemma_steps_lead_to_frame(next, scores, config, vocab, m, k + 1, until);
    }
}

/// Before step `k` the device knows of an unfinished row what the host knows: it takes tokens, and
/// its flags are those of the tokens taken.
pub open spec fn in_step(
    rows: Seq<RowModel>,
    scores: FrameScores,
    config: DeviceGreedySelectionConfig,
    vocab: nat,
    m: nat,
    k: nat,
    b: int,
) -> bool {
    let state = device_state(scores, config, vocab, m, b, k);
    !rows[b].finished ==> !state.1 && flags_match(
        state.0,
        host_rules(rows[b], config, k),
        Seq::empty(),
        vocab,
    )
}

/// Before step `k` all rows have taken the blocks of the steps before it, and the device knows of
/// them what the host knows.
pub open spec fn rows_in_step(
    rows: Seq<RowModel>,
    scores: FrameScores,
    config: DeviceGreedySelectionConfig,
    vocab: nat,
    m: nat,
    k: nat,
) -> bool {
    &&& rows_even(rows, k * m)
    &&& forall|b: int|
        0 <= b < rows.len() ==> #[trigger] in_step(rows, scores, config, vocab, m, k, b)
}

/// The slots that a device selects for a row that takes tokens are those that the host selects. If
/// the block is full and the row goes on, the flags are those of the tokens taken.
pub proof fn lemma_slots_match_host(
    rows: Seq<RowModel>,
    slots: DeviceRow,
    flags: Seq<bool>,
    scores: FrameScores,
    config: DeviceGreedySelectionConfig,
    vocab: nat,
    m: nat,
    k: nat,
    b: int,
)
    requires
        0 < vocab <= i64::MAX,
        vocab <= usize::MAX,
        0 <= b < rows.len(),
        block_decided(rows, scores, config, vocab, m, k),
        host_width(rows, scores, config, m, k) <= m,
        !rows[b].finished,
        slots == device_block(
            scores(k as int, b),
            step_config(config, k),
            rows[b].tokens.len(),
            flags,
            false,
            m,
        ),
        flags_match(flags, host_rules(rows[b], config, k), Seq::empty(), vocab),
    ensures
        ({
            let w = host_width(rows, scores, config, m, k);
            let next = host_step(rows, scores, config, m, k);
            let host = host_selections(rows, scores, config, m, k)(b);
            &&& slots.tokens.len() == m
            &&& slots.valid.len() == m
            &&& slots.tokens.take(w as int) == padded(host.tokens, w, config.eos_token_id)
            &&& slots.valid.take(w as int) == padded(host.valid, w, false)
            &&& next[b].finished && rows[b].coverage is None ==> slots.valid.contains(false)
            &&& w == m && !next[b].finished ==> !slots.finished && !slots.valid.contains(false)
                && flags_match(
                slots.disallowed,
                host_rules(next[b], config, k + 1),
                Seq::empty(),
                vocab,
            )
        }),
{
    let w = host_width(rows, scores, config, m, k);
    let eos = config.eos_token_id;
    let next = host_step(rows, scores, config, m, k);
    let rules = host_rules(rows[b], config, k);
    let row = scores(k as int, b);
    let selections = host_selections(rows, scores, config, m, k);
    let host = selections(b);
    let tokens = padded(host.tokens, w, eos);
    let valid = padded(host.valid, w, false);
    let confidences = padded(host.confidences, w, single(ZERO_BITS));
    assert(row.vocab == vocab && scores_count(row, rules, m));
    lemma_longest_selection(selections, rows.len(), b);
    lemma_row_selection(row, rules, m);
    lemma_stays_finished(rows[b], tokens, valid, confidences, w);
    lemma_device_selection_matches_host(row, rules, step_config(config, k), flags, m);
    assert(slots.tokens.take(w as int) =~= tokens);
    assert(slots.valid.take(w as int) =~= valid);
    if next[b].finished && rows[b].coverage is None {
        let i = lemma_finishes_by_invalid(rows[b], tokens, valid, confidences, w);
        assert(slots.valid[i] == valid[i]);
    }
    if w == m && !next[b].finished {
        assert forall|i: int| 0 <= i < w implies #[trigger] valid[i] by {
            if !valid[i] {
                lemma_invalid_finishes(rows[b], tokens, valid, confidences, w, i);
            }
        }
        assert(slots.valid =~= valid);
        assert(!slots.valid.contains(false));
        assert(host.tokens.len() == m) by {
            if host.tokens.len() < m {
                assert(!valid[host.tokens.len() as int]);
            }
        }
        assert(next[b].tokens =~= rows[b].tokens + host.tokens);
    }
}

/// The slots that a device selects for a row in step `k` do to the row what the host does to it:
/// the row takes the same tokens with the same validity, and end tokens where it was finished.
pub proof fn lemma_row_takes_slots(
    device: RowModel,
    rows: Seq<RowModel>,
    selection: GreedyTokenSelection,
    slots: DeviceRow,
    flags: Seq<bool>,
    scores: FrameScores,
    config: DeviceGreedySelectionConfig,
    vocab: nat,
    m: nat,
    k: nat,
    at: int,
    b: int,
)
    requires
        0 < vocab <= i64::MAX,
        vocab <= usize::MAX,
        0 <= b < rows.len(),
        0 <= at,
        same_but_confidence(device, rows[b]),
        block_decided(rows, scores, config, vocab, m, k),
        host_width(rows, scores, config, m, k) <= m,
        !rows[b].finished ==> slots == device_block(
            scores(k as int, b),
            step_config(config, k),
            rows[b].tokens.len(),
            flags,
            false,
            m,
        ) && flags_match(flags, host_rules(rows[b], config, k), Seq::empty(), vocab),
        selection.tokens@[b]@.subrange(at, at + m) == slots.tokens,
        selection.valid@[b]@.subrange(at, at + m) == slots.valid,
        at + m <= selection.tokens@[b]@.len(),
        at + m <= selection.valid@[b]@.len(),
    ensures
        ({
            let w = host_width(rows, scores, config, m, k);
            same_but_confidence(
                device.stepped(selection, b, at, w, config.eos_token_id),
                host_step(rows, scores, config, m, k)[b],
            )
        }),
{
    let w = host_width(rows, scores, config, m, k);
    let eos = config.eos_token_id;
    let rules = host_rules(rows[b], config, k);
    let selections = host_selections(rows, scores, config, m, k);
    let host = selections(b);
    let tokens = padded(host.tokens, w, eos);
    let valid = padded(host.valid, w, false);
    let confidences = padded(host.confidences, w, single(ZERO_BITS));
    if rows[b].finished {
        lemma_finished_selects_nothing(scores(k as int, b), rules, m);
        lemma_padding_is_block(device, eos, w, w);
        lemma_same_blocks(
            device,
            rows[b],
            Seq::new(w, |i: int| eos),
            Seq::new(w, |i: int| false),
            Seq::new(w, |i: int| single(ZERO_BITS)),
            tokens,
            valid,
            confidences,
            w,
        );
    } else {
        lemma_slots_match_host(rows, slots, flags, scores, config, vocab, m, k, b);
        let read_tokens = selection.tokens@[b]@;
        let read_valid = selection.valid@[b]@;
        assert forall|i: int| 0 <= i < w implies #[trigger] read_tokens.subrange(
            at,
            at + w,
        )[i] == tokens[i] by {
            assert(read_tokens.subrange(at, at + m)[i] == slots.tokens[i]);
            assert(slots.tokens.take(w as int)[i] == tokens[i]);
        }
        assert forall|i: int| 0 <= i < w implies #[trigger] read_valid.subrange(
            at,
            at + w,
        )[i] == valid[i] by {
            assert(read_valid.subrange(at, at + m)[i] == slots.valid[i]);
            assert(slots.valid.take(w as int)[i] == valid[i]);
        }
        lemma_same_blocks(
            device,
            rows[b],
            read_tokens.subrange(at, at + w),
            read_valid.subrange(at, at + w),
            selection.confidences@[b]@.subrange(at, at + w),
            tokens,
            valid,
            confidences,
            w,
        );
    }
}

/// A finished row stays finished in a step of the host, and takes end tokens.
pub proof fn lemma_finished_row_is_padded(
    rows: Seq<RowModel>,
    scores: FrameScores,
    config: DeviceGreedySelectionConfig,
    m: nat,
    k: nat,
    b: int,
)
    requires
        0 <= b < rows.len(),
        rows[b].finished,
    ensures
        ({
            let w = host_width(rows, scores, config, m, k);
            let host = host_selections(rows, scores, config, m, k)(b);
            &&& host_step(rows, scores, config, m, k)[b].finished
            &&& padded(host.tokens, w, config.eos_token_id) == Seq::new(
                w,
                |i: int| config.eos_token_id,
            )
        }),
{
    let w = host_width(rows, scores, config, m, k);
    let host = host_selections(rows, scores, config, m, k)(b);
    lemma_finished_selects_nothing(scores(k as int, b), host_rules(rows[b], config, k), m);
    lemma_stays_finished(
        rows[b],
        padded(host.tokens, w, config.eos_token_id),
        padded(host.valid, w, false),
        padded(host.confidences, w, single(ZERO_BITS)),
        w,
    );
    assert(padded(host.tokens, w, config.eos_token_id) =~= Seq::new(
        w,
        |i: int| config.eos_token_id,
    ));
}

/// A row without coverage to watch is finished by an invalid slot only.
proof fn lemma_finishes_by_invalid(
    row: RowModel,
    tokens: Seq<i64>,
    valid: Seq<bool>,
    confidences: Seq<Binary32>,
    n: nat,
) -> (i: int)
    requires
        !row.finished,
        row.coverage is None,
        row.taken_block(tokens, valid, confidences, n).finished,
    ensures
        0 <= i < n,
        !valid[i],
    decreases n,
{
    let before = row.taken_block(tokens, valid, confidences, (n - 1) as nat);
    if before.finished {
        lemma_finishes_by_invalid(row, tokens, valid, confidences, (n - 1) as nat)
    } else {
        lemma_keeps_no_coverage(row, tokens, valid, confidences, (n - 1) as nat);
        n - 1
    }
}

/// A row without coverage to watch stays one.
pub proof fn lemma_keeps_no_coverage(
    row: RowModel,
    tokens: Seq<i64>,
    valid: Seq<bool>,
    confidences: Seq<Binary32>,
    n: nat,
)
    requires
        row.coverage is None,
    ensures
        row.taken_block(tokens, valid, confidences, n).coverage is None,
    decreases n,
{
    if n > 0 {
        lemma_keeps_no_coverage(row, tokens, valid, confidences, (n - 1) as nat);
    }
}

/// Step `k` does the same to a row, whether it is read back as step `i` of a chunk or selected on
/// the host.
proof fn lemma_row_step(
    device: RowModel,
    rows: Seq<RowModel>,
    selection: GreedyTokenSelection,
    scores: FrameScores,
    config: DeviceGreedySelectionConfig,
    vocab: nat,
    m: nat,
    from: nat,
    i: nat,
    steps: nat,
    b: int,
)
    requires
        m > 0,
        0 < vocab <= i64::MAX,
        vocab <= usize::MAX,
        i < steps,
        0 <= b < rows.len(),
        same_but_confidence(device, rows[b]),
        rows[b].tokens.len() == (from + i) * m,
        block_decided(rows, scores, config, vocab, m, from + i),
        host_width(rows, scores, config, m, from + i) <= m,
        reads_back(selection, rows.len(), scores, config, vocab, m, from, steps),
        in_step(rows, scores, config, vocab, m, from + i, b),
    ensures
        ({
            let k = from + i;
            let w = host_width(rows, scores, config, m, k);
            let eos = config.eos_token_id;
            let next = host_step(rows, scores, config, m, k);
            &&& same_but_confidence(
                device.stepped(selection, b, (i * m) as int, w, eos),
                next[b],
            )
            &&& next[b].tokens.len() == rows[b].tokens.len() + w
            &&& w == m ==> in_step(next, scores, config, vocab, m, k + 1, b)
        }),
{
    let k = from + i;
    let state = device_state(scores, config, vocab, m, b, k);
    let slots = device_slots(scores, config, vocab, m, b, from + i);
    lemma_row_takes_slots(
        device,
        rows,
        selection,
        slots,
        state.0,
        scores,
        config,
        vocab,
        m,
        k,
        (i * m) as int,
        b,
    );
    lemma_step_takes_width(rows, scores, config, m, k);
    if rows[b].finished {
        lemma_finished_row_is_padded(rows, scores, config, m, k, b);
    } else {
        lemma_slots_match_host(rows, slots, state.0, scores, config, vocab, m, k, b);
    }
}

/// What a device selects in a chunk is what the host selects step by step from the same scores:
/// reading the chunk back leaves rows with the same tokens, the same padding and the same coverage,
/// finished where the host's are. If the frame goes on, the next chunk starts as this one did. This
/// holds as long as the scores decide what is selected.
pub proof fn lemma_device_chunk_matches_host(
    device: Seq<RowModel>,
    rows: Seq<RowModel>,
    selection: GreedyTokenSelection,
    scores: FrameScores,
    config: DeviceGreedySelectionConfig,
    vocab: nat,
    m: nat,
    from: nat,
    steps: nat,
)
    requires
        m > 0,
        0 < vocab <= i64::MAX,
        vocab <= usize::MAX,
        rows_same(device, rows),
        frame_ends(rows, config) || rows_in_step(rows, scores, config, vocab, m, from),
        frame_decided(rows, scores, config, vocab, m, from),
        reads_back(selection, rows.len(), scores, config, vocab, m, from, steps),
    ensures
        ({
            let after = host_steps(rows, scores, config, m, from, from + steps);
            &&& rows_same(
                chunk_result(
                    device,
                    selection,
                    0,
                    steps,
                    0,
                    m,
                    config.max_tokens as nat,
                    config.eos_token_id,
                ).0,
                after,
            )
            &&& frame_ends(after, config) || rows_in_step(
                after,
                scores,
                config,
                vocab,
                m,
                from + steps,
            )
        }),
{
    lemma_chunk_from(device, rows, selection, scores, config, vocab, m, from, 0, steps, 0);
}

proof fn lemma_chunk_from(
    device: Seq<RowModel>,
    rows: Seq<RowModel>,
    selection: GreedyTokenSelection,
    scores: FrameScores,
    config: DeviceGreedySelectionConfig,
    vocab: nat,
    m: nat,
    from: nat,
    i: nat,
    steps: nat,
    last: nat,
)
    requires
        m > 0,
        0 < vocab <= i64::MAX,
        vocab <= usize::MAX,
        i <= steps,
        rows_same(device, rows),
        frame_ends(rows, config) || rows_in_step(rows, scores, config, vocab, m, from + i),
        frame_decided(rows, scores, config, vocab, m, from + i),
        reads_back(selection, rows.len(), scores, config, vocab, m, from, steps),
    ensures
        ({
            let after = host_steps(rows, scores, config, m, from + i, from + steps);
            &&& rows_same(
                chunk_result(
                    device,
                    selection,
                    i,
                    steps,
                    last,
                    m,
                    config.max_tokens as nat,
                    config.eos_token_id,
                ).0,
                after,
            )
            &&& frame_ends(after, config) || rows_in_step(
                after,
                scores,
                config,
                vocab,
                m,
                from + steps,
            )
        }),
    decreases steps - i,
{
    let max = config.max_tokens as nat;
    let eos = config.eos_token_id;
    let k = from + i;
    lemma_same_ends(device, rows);
    if i < steps && !frame_ends(rows, config) {
        let w = step_width(device, m, max);
        let next = host_step(rows, scores, config, m, k);
        let stepped = rows_stepped(device, selection, i, m, max, eos);
        assert forall|b: int| 0 <= b < rows.len() implies same_but_confidence(
            #[trigger] stepped[b],
            next[b],
        ) && next[b].tokens.len() == k * m + w && (w == m ==> in_step(
            next,
            scores,
            config,
            vocab,
            m,
            k + 1,
            b,
        )) by {
            assert(same_but_confidence(device[b], rows[b]));
            assert(rows[b].tokens.len() == k * m);
            assert(in_step(rows, scores, config, vocab, m, k, b));
            lemma_row_step(
                device[b],
                rows,
                selection,
                scores,
                config,
                vocab,
                m,
                from,
                i,
                steps,
                b,
            );
        }
        assert(rows_same(stepped, next));
        assert((k + 1) * m == k * m + m) by (nonlinear_arith);
        assert(frame_ends(next, config) || rows_in_step(next, scores, config, vocab, m, k + 1)) by {
            if w == m {
                assert forall|b: int| 0 <= b < next.len() implies (#[trigger] next[b]).tokens.len()
                    == (k + 1) * m by {
                    assert(same_but_confidence(stepped[b], next[b]));
                }
                assert forall|b: int| 0 <= b < next.len() implies #[trigger] in_step(
                    next,
                    scores,
                    config,
                    vocab,
                    m,
                    k + 1,
                    b,
                ) by {
                    assert(same_but_confidence(stepped[b], next[b]));
                }
            } else {
                assert(same_but_confidence(stepped[0], next[0]));
            }
        }
        lemma_chunk_from(
            stepped,
            next,
            selection,
            scores,
            config,
            vocab,
            m,
            from,
            i + 1,
            steps,
            w,
        );
    }
}

/// Rows that are the same have taken equally many tokens, and are finished together.
pub proof fn lemma_same_ends(one: Seq<RowModel>, other: Seq<RowModel>)
    requires
        rows_same(one, other),
    ensures
        rows_count(one) == rows_count(other),
        rows_finished(one) == rows_finished(other),
{
    if one.len() > 0 {
        assert(same_but_confidence(one[0], other[0]));
    }
    if rows_finished(one) {
        assert forall|b: int| 0 <= b < other.len() implies (#[trigger] other[b]).finished by {
            assert(same_but_confidence(one[b], other[b]));
        }
    }
    if rows_finished(other) {
        assert forall|b: int| 0 <= b < one.len() implies (#[trigger] one[b]).finished by {
            assert(same_but_confidence(one[b], other[b]));
        }
    }
}

/// Taking slots whose confidences are marks of validity keeps the confidences of a row such marks.
proof fn lemma_taken_marked(
    row: RowModel,
    tokens: Seq<i64>,
    valid: Seq<bool>,
    confidences: Seq<Binary32>,
    n: nat,
)
    requires
        row_marked(row),
        forall|i: int| 0 <= i < n ==> #[trigger] confidences[i] == validity_mark(valid[i]),
    ensures
        row_marked(row.taken_block(tokens, valid, confidences, n)),
    decreases n,
{
    if n > 0 {
        lemma_taken_marked(row, tokens, valid, confidences, (n - 1) as nat);
        assert(confidences[n - 1] == validity_mark(valid[n - 1]));
    }
}

/// Reading back a chunk whose confidences are marks of validity keeps those of the rows such marks.
pub proof fn lemma_chunk_marked(
    rows: Seq<RowModel>,
    selection: GreedyTokenSelection,
    i: nat,
    steps: nat,
    last: nat,
    m: nat,
    max: nat,
    eos: i64,
)
    requires
        rows_marked(rows),
        selection_marked(selection, rows.len()),
        forall|b: int|
            0 <= b < rows.len() ==> (#[trigger] selection.valid@[b])@.len() == steps * m,
        forall|b: int|
            0 <= b < rows.len() ==> (#[trigger] selection.confidences@[b])@.len() == steps * m,
    ensures
        rows_marked(chunk_result(rows, selection, i, steps, last, m, max, eos).0),
    decreases steps - i,
{
    if i < steps && rows_count(rows) < max && !rows_finished(rows) {
        let w = step_width(rows, m, max);
        let stepped = rows_stepped(rows, selection, i, m, max, eos);
        let at = (i * m) as int;
        assert(at + w <= steps * m) by (nonlinear_arith)
            requires
                at == i * m,
                w <= m,
                i + 1 <= steps,
        ;
        assert forall|b: int| 0 <= b < rows.len() implies row_marked(#[trigger] stepped[b]) by {
            assert(row_marked(rows[b]));
            if rows[b].finished {
                lemma_padding_is_block(rows[b], eos, w, w);
                lemma_taken_marked(
                    rows[b],
                    Seq::new(w, |i: int| eos),
                    Seq::new(w, |i: int| false),
                    Seq::new(w, |i: int| single(ZERO_BITS)),
                    w,
                );
            } else {
                let valid = selection.valid@[b]@.subrange(at, at + w);
                let confidences = selection.confidences@[b]@.subrange(at, at + w);
                assert forall|i: int| 0 <= i < w implies #[trigger] confidences[i]
                    == validity_mark(valid[i]) by {
                    assert(selection.confidences@[b]@[at + i] == validity_mark(
                        selection.valid@[b]@[at + i],
                    ));
                }
                lemma_taken_marked(
                    rows[b],
                    selection.tokens@[b]@.subrange(at, at + w),
                    valid,
                    confidences,
                    w,
                );
            }
        }
        lemma_chunk_marked(stepped, selection, i + 1, steps, w, m, max, eos);
    }
}

/// Two rows hold the same scores and task losses for the first `m` steps.
pub open spec fn same_logits(a: RowScores, b: RowScores, m: nat) -> bool {
    &&& a.vocab == b.vocab
    &&& forall|j: int, v: int|
        0 <= j < m && 0 <= v < a.vocab ==> #[trigger] a.scores[a.row_base + j * a.vocab + v]
            == b.scores[b.row_base + j * b.vocab + v]
    &&& forall|j: int|
        0 <= j < m ==> #[trigger] a.tasks[a.task_base + j] == b.tasks[b.task_base + j]
}

/// The best of the masked scores is the same wherever the scores lie.
proof fn lemma_same_best(
    a: RowScores,
    b: RowScores,
    m: nat,
    j: int,
    hidden: Seq<bool>,
    active: bool,
    k: nat,
)
    requires
        same_logits(a, b, m),
        0 <= j < m,
        k <= a.vocab,
    ensures
        ({
            let (at, other) = (a.row_base + j * a.vocab, b.row_base + j * b.vocab);
            let best = device_best(a.scores, at, hidden, active, k);
            &&& best == device_best(b.scores, other, hidden, active, k)
            &&& k > 0 ==> 0 <= best < k && masked_score(a.scores, at, hidden, active, best)
                == masked_score(b.scores, other, hidden, active, best)
        }),
    decreases k,
{
    if k > 0 {
        lemma_same_best(a, b, m, j, hidden, active, (k - 1) as nat);
        let v = k - 1;
        assert(a.scores[a.row_base + j * a.vocab + v] == b.scores[b.row_base + j * b.vocab + v]);
    }
}

/// A device selects the same block wherever the scores lie.
pub proof fn lemma_same_device_block(
    a: RowScores,
    b: RowScores,
    config: DeviceGreedySelectionConfig,
    count: nat,
    flags: Seq<bool>,
    finished: bool,
    n: nat,
    m: nat,
)
    requires
        same_logits(a, b, m),
        n <= m,
        a.vocab > 0,
    ensures
        device_block(a, config, count, flags, finished, n) == device_block(
            b,
            config,
            count,
            flags,
            finished,
            n,
        ),
    decreases n,
{
    if n > 0 {
        lemma_same_device_block(a, b, config, count, flags, finished, (n - 1) as nat, m);
        let j = n - 1;
        let before = device_block(a, config, count, flags, finished, (n - 1) as nat);
        let active = count + j < config.max_tokens && !before.finished;
        lemma_same_best(a, b, m, j, before.disallowed, active, a.vocab);
        assert(a.tasks[a.task_base + j] == b.tasks[b.task_base + j]);
        assert(device_step(a, config, count, before, j) == device_step(
            b,
            config,
            count,
            before,
            j,
        ));
    }
}

/// A device selects the same steps wherever the scores lie.
pub proof fn lemma_same_device_slots(
    one: FrameScores,
    other: FrameScores,
    config: DeviceGreedySelectionConfig,
    vocab: nat,
    m: nat,
    b: int,
    k: nat,
)
    requires
        forall|i: int|
            0 <= i ==> same_logits(#[trigger] one(i, b), other(i, b), m) && one(i, b).vocab > 0,
    ensures
        device_state(one, config, vocab, m, b, k) == device_state(other, config, vocab, m, b, k),
        device_slots(one, config, vocab, m, b, k) == device_slots(other, config, vocab, m, b, k),
    decreases k,
{
    if k > 0 {
        lemma_same_device_slots(one, other, config, vocab, m, b, (k - 1) as nat);
    }
    let before = device_state(one, config, vocab, m, b, k);
    assert(same_logits(one(k as int, b), other(k as int, b), m));
    lemma_same_device_block(
        one(k as int, b),
        other(k as int, b),
        step_config(config, k),
        k * m,
        before.0,
        before.1,
        m,
        m,
    );
}

} // verus!
