//! Greedy selection of a block of gaze tokens with flags in place of token lists.
//!
//! This is the form of the selection that a device computes without a readback: which tokens a row
//! may not take, and whether the row takes any more, are flags, hidden tokens get a score far below
//! any other, and every row yields as many slots as there are steps. Tokens and validity are those
//! of the selection on the host ([`crate::selection`]), except where the best score that a row may
//! take is not finite or not above [`LEAST_SCORE_BITS`]: the host skips scores that are not finite
//! and takes the best of the others however low, the device takes an infinitely high score and no
//! other of these.
use crate::ieee::{lemma_whole_numbers_exact, Binary32};
use crate::selection::{
    best_token, device_token, device_valid, disallowed, lemma_best_token, lemma_row_selection,
    meets_requirement, mentions,
    padded, row_active, row_selection, RowRules, RowScores, TaskLossStop,
};
use crate::trace::{single, ONE_BITS, ZERO_BITS};
use vstd::prelude::*;

verus! {

/// The score of a hidden token, `-1.0e30`.
pub const HIDDEN_SCORE_BITS: u32 = 0xf149_f2ca;

/// What a score exceeds that counts, `-1.0e29`.
pub const LEAST_SCORE_BITS: u32 = 0xefa1_8f08;

/// The rows before a block.
#[derive(Clone, Debug)]
pub struct DeviceGreedySelectionState {
    /// The tokens that the rows may not take: one flag for every token of the vocabulary, row by
    /// row.
    pub disallowed: Vec<bool>,
    /// The rows that take no more tokens.
    pub finished: Vec<bool>,
    /// The slots that the rows have taken in the frame.
    pub current_len: usize,
}

/// The rules of a block.
#[derive(Clone, Copy, Debug, PartialEq, Eq, Structural)]
pub struct DeviceGreedySelectionConfig {
    pub eos_token_id: i64,
    /// The most tokens that a row takes in the frame.
    pub max_tokens: usize,
    pub task_loss_stop: TaskLossStop,
}

/// A selected block, and the rows after it.
#[derive(Clone, Debug)]
pub struct DeviceGreedySelection {
    pub tokens: Vec<Vec<i64>>,
    pub valid: Vec<Vec<bool>>,
    /// The rows for which a step had no token left.
    pub finished: Vec<bool>,
    pub disallowed: Vec<bool>,
}

/// One row while its block is selected.
pub struct DeviceRow {
    pub tokens: Seq<i64>,
    pub valid: Seq<bool>,
    pub disallowed: Seq<bool>,
    pub finished: bool,
}

/// The score that token `v` competes with.
pub open spec fn masked_score(
    scores: Seq<Binary32>,
    base: int,
    hidden: Seq<bool>,
    active: bool,
    v: int,
) -> Binary32 {
    if !active || hidden[v] {
        single(HIDDEN_SCORE_BITS)
    } else {
        scores[base + v]
    }
}

/// The first of the highest scores among the first `k`.
pub open spec fn device_best(
    scores: Seq<Binary32>,
    base: int,
    hidden: Seq<bool>,
    active: bool,
    k: nat,
) -> int
    decreases k,
{
    if k <= 1 {
        0
    } else {
        let before = device_best(scores, base, hidden, active, (k - 1) as nat);
        if masked_score(scores, base, hidden, active, before).lt(
            masked_score(scores, base, hidden, active, k - 1),
        ) {
            k - 1
        } else {
            before
        }
    }
}

/// Step `j` of a row that has taken `current_len` slots before the block.
pub open spec fn device_step(
    row: RowScores,
    config: DeviceGreedySelectionConfig,
    current_len: nat,
    state: DeviceRow,
    j: int,
) -> DeviceRow {
    let base = row.row_base + j * row.vocab;
    let active = current_len + j < config.max_tokens && !state.finished;
    let best = device_best(row.scores, base, state.disallowed, active, row.vocab);
    let scored = single(LEAST_SCORE_BITS).lt(
        masked_score(row.scores, base, state.disallowed, active, best),
    );
    let valid = active && scored && !meets_requirement(
        config.task_loss_stop,
        j,
        row.tasks[row.task_base + j],
    );
    DeviceRow {
        tokens: state.tokens.push(
            if valid {
                best as i64
            } else {
                config.eos_token_id
            },
        ),
        valid: state.valid.push(valid),
        disallowed: if active && scored {
            state.disallowed.update(best, true)
        } else {
            state.disallowed
        },
        finished: state.finished || active && !scored,
    }
}

/// The first `m` steps of a row.
pub open spec fn device_block(
    row: RowScores,
    config: DeviceGreedySelectionConfig,
    current_len: nat,
    disallowed: Seq<bool>,
    finished: bool,
    m: nat,
) -> DeviceRow
    decreases m,
{
    if m == 0 {
        DeviceRow { tokens: Seq::empty(), valid: Seq::empty(), disallowed, finished }
    } else {
        device_step(
            row,
            config,
            current_len,
            device_block(row, config, current_len, disallowed, finished, (m - 1) as nat),
            m - 1,
        )
    }
}

/// Row `b` of scores that lie step by step, beside their task losses.
pub open spec fn device_row(
    logits: Seq<Binary32>,
    task_loss: Seq<Binary32>,
    num_multi: nat,
    vocab: nat,
    b: int,
) -> RowScores {
    RowScores {
        scores: logits,
        weights: logits,
        row_base: b * num_multi * vocab,
        vocab,
        tasks: task_loss,
        task_base: b * num_multi,
    }
}

/// Flags `b * vocab` and on, one for every token.
pub open spec fn flag_row(flags: Seq<bool>, vocab: nat, b: int) -> Seq<bool> {
    Seq::new(vocab, |v: int| flags[b * vocab + v])
}

impl DeviceGreedySelection {
    /// Row `b` is the row that the steps select.
    pub open spec fn holds_row(self, row: DeviceRow, vocab: nat, b: int) -> bool {
        &&& self.tokens@[b]@ == row.tokens
        &&& self.valid@[b]@ == row.valid
        &&& self.finished@[b] == row.finished
        &&& flag_row(self.disallowed@, vocab, b) == row.disallowed
    }
}

/// One row while its block is selected.
struct RowFlags {
    tokens: Vec<i64>,
    valid: Vec<bool>,
    disallowed: Vec<bool>,
    finished: bool,
}

impl RowFlags {
    spec fn row(self) -> DeviceRow {
        DeviceRow {
            tokens: self.tokens@,
            valid: self.valid@,
            disallowed: self.disallowed@,
            finished: self.finished,
        }
    }
}

/// The first of the highest scores.
fn find_best(
    scores: &[Binary32],
    base: usize,
    hidden: &Vec<bool>,
    active: bool,
    vocab: usize,
) -> (r: (usize, Binary32))
    requires
        vocab > 0,
        base + vocab <= scores@.len(),
        hidden@.len() == vocab,
    ensures
        r.0 == device_best(scores@, base as int, hidden@, active, vocab as nat),
        r.0 < vocab,
        r.1 == masked_score(scores@, base as int, hidden@, active, r.0 as int),
{
    let total: usize = scores.len();
    let mut best: usize = 0;
    let mut score: Binary32 = if !active || hidden[0] {
        single(HIDDEN_SCORE_BITS)
    } else {
        scores[base]
    };
    let mut v: usize = 1;
    while v < vocab
        invariant
            1 <= v <= vocab,
            best < v,
            total == scores@.len(),
            base + vocab <= total,
            hidden@.len() == vocab,
            best == device_best(scores@, base as int, hidden@, active, v as nat),
            score == masked_score(scores@, base as int, hidden@, active, best as int),
        decreases vocab - v,
    {
        let next: Binary32 = if !active || hidden[v] {
            single(HIDDEN_SCORE_BITS)
        } else {
            scores[base + v]
        };
        if score.lt(next) {
            best = v;
            score = next;
        }
        v = v + 1;
    }
    (best, score)
}

/// Selects the block of one row.
fn select_row(
    logits: &[Binary32],
    task_loss: &[Binary32],
    num_multi: usize,
    vocab: usize,
    b: usize,
    current_len: usize,
    config: DeviceGreedySelectionConfig,
    disallowed: Vec<bool>,
    finished: bool,
) -> (r: RowFlags)
    requires
        vocab > 0,
        vocab <= i64::MAX,
        (b + 1) * num_multi * vocab <= logits@.len(),
        (b + 1) * num_multi <= task_loss@.len(),
        disallowed@.len() == vocab,
    ensures
        r.row() == device_block(
            device_row(logits@, task_loss@, num_multi as nat, vocab as nat, b as int),
            config,
            current_len as nat,
            disallowed@,
            finished,
            num_multi as nat,
        ),
        r.disallowed@.len() == vocab,
        r.tokens@.len() == num_multi,
        r.valid@.len() == num_multi,
{
    let ghost given = disallowed@;
    let ghost row = device_row(logits@, task_loss@, num_multi as nat, vocab as nat, b as int);
    let values: usize = logits.len();
    let losses: usize = task_loss.len();
    proof {
        assert(b * num_multi >= 0) by (nonlinear_arith)
            requires
                b >= 0,
                num_multi >= 0,
        ;
        assert((b + 1) * num_multi == b * num_multi + num_multi) by (nonlinear_arith);
        let first = b * num_multi;
        assert(0 <= first * vocab <= (first + num_multi) * vocab) by (nonlinear_arith)
            requires
                first >= 0,
                num_multi >= 0,
                vocab >= 0,
        ;
    }
    let task_base: usize = b * num_multi;
    let row_base: usize = task_base * vocab;
    let mut flags: RowFlags = RowFlags {
        tokens: Vec::new(),
        valid: Vec::new(),
        disallowed,
        finished,
    };
    let mut j: usize = 0;
    while j < num_multi
        invariant
            j <= num_multi,
            vocab > 0,
            vocab <= i64::MAX,
            task_base == b * num_multi,
            row_base == task_base * vocab,
            values == logits@.len(),
            losses == task_loss@.len(),
            (task_base + num_multi) * vocab <= values,
            task_base + num_multi <= losses,
            row == device_row(logits@, task_loss@, num_multi as nat, vocab as nat, b as int),
            flags.disallowed@.len() == vocab,
            flags.tokens@.len() == j,
            flags.valid@.len() == j,
            flags.row() == device_block(
                row,
                config,
                current_len as nat,
                given,
                finished,
                j as nat,
            ),
        decreases num_multi - j,
    {
        proof {
            assert(0 <= j * vocab && row_base + j * vocab + vocab <= (task_base + num_multi) * vocab)
                by (nonlinear_arith)
                requires
                    row_base == task_base * vocab,
                    0 <= j,
                    j + 1 <= num_multi,
                    vocab >= 0,
            ;
        }
        let base: usize = row_base + j * vocab;
        let room: bool = current_len < config.max_tokens && j < config.max_tokens - current_len;
        let active: bool = room && !flags.finished;
        let (best, score) = find_best(logits, base, &flags.disallowed, active, vocab);
        let scored: bool = single(LEAST_SCORE_BITS).lt(score);
        let stopped: bool = match config.task_loss_stop.requirement {
            Some(threshold) => !(config.task_loss_stop.is_first_token && j == 0)
                && task_loss[task_base + j].le(threshold),
            None => false,
        };
        let valid: bool = active && scored && !stopped;
        let ghost before = flags.row();
        flags.tokens.push(
            if valid {
                best as i64
            } else {
                config.eos_token_id
            },
        );
        flags.valid.push(valid);
        if active && scored {
            flags.disallowed.set(best, true);
        }
        if active && !scored {
            flags.finished = true;
        }
        proof {
            assert(flags.row() == device_step(row, config, current_len as nat, before, j as int));
        }
        j = j + 1;
    }
    flags
}

/// Selects a block for every row of a batch. `logits` holds, row by row and step by step, the
/// scores of the whole vocabulary; `task_loss` the predicted task loss of every step.
pub fn device_select_multi_tokens(
    logits: &[Binary32],
    task_loss: &[Binary32],
    batch: usize,
    num_multi: usize,
    vocab: usize,
    state: &DeviceGreedySelectionState,
    config: DeviceGreedySelectionConfig,
) -> (r: DeviceGreedySelection)
    requires
        num_multi > 0,
        vocab > 0,
        vocab <= i64::MAX,
        logits@.len() == batch * num_multi * vocab,
        task_loss@.len() == batch * num_multi,
        state.disallowed@.len() == batch * vocab,
        state.finished@.len() == batch,
    ensures
        r.tokens@.len() == batch,
        r.valid@.len() == batch,
        r.finished@.len() == batch,
        r.disallowed@.len() == batch * vocab,
        forall|b: int|
            0 <= b < batch ==> #[trigger] r.holds_row(
                device_block(
                    device_row(logits@, task_loss@, num_multi as nat, vocab as nat, b),
                    config,
                    state.current_len as nat,
                    flag_row(state.disallowed@, vocab as nat, b),
                    state.finished@[b],
                    num_multi as nat,
                ),
                vocab as nat,
                b,
            ),
{
    let ghost rows = |b: int|
        device_block(
            device_row(logits@, task_loss@, num_multi as nat, vocab as nat, b),
            config,
            state.current_len as nat,
            flag_row(state.disallowed@, vocab as nat, b),
            state.finished@[b],
            num_multi as nat,
        );
    let mut tokens: Vec<Vec<i64>> = Vec::new();
    let mut valid: Vec<Vec<bool>> = Vec::new();
    let mut finished: Vec<bool> = Vec::new();
    let mut disallowed: Vec<bool> = Vec::new();
    let total: usize = state.disallowed.len();
    let mut b: usize = 0;
    assert(0 * vocab == 0);
    while b < batch
        invariant
            b <= batch,
            num_multi > 0,
            0 < vocab <= i64::MAX,
            logits@.len() == batch * num_multi * vocab,
            task_loss@.len() == batch * num_multi,
            total == state.disallowed@.len(),
            total == batch * vocab,
            state.finished@.len() == batch,
            rows == (|b: int|
                device_block(
                    device_row(logits@, task_loss@, num_multi as nat, vocab as nat, b),
                    config,
                    state.current_len as nat,
                    flag_row(state.disallowed@, vocab as nat, b),
                    state.finished@[b],
                    num_multi as nat,
                )),
            tokens@.len() == b,
            valid@.len() == b,
            finished@.len() == b,
            disallowed@.len() == b * vocab,
            forall|c: int| 0 <= c < b ==> (#[trigger] tokens@[c])@ == rows(c).tokens,
            forall|c: int| 0 <= c < b ==> (#[trigger] valid@[c])@ == rows(c).valid,
            forall|c: int| 0 <= c < b ==> #[trigger] finished@[c] == rows(c).finished,
            forall|c: int|
                0 <= c < b ==> #[trigger] flag_row(disallowed@, vocab as nat, c) == rows(
                    c,
                ).disallowed,
        decreases batch - b,
    {
        proof {
            assert(0 <= b * vocab && (b + 1) * vocab == b * vocab + vocab && (b + 1) * vocab
                <= batch * vocab) by (nonlinear_arith)
                requires
                    0 <= b,
                    b + 1 <= batch,
                    vocab >= 0,
            ;
            assert((b + 1) * num_multi <= batch * num_multi) by (nonlinear_arith)
                requires
                    b + 1 <= batch,
                    num_multi >= 0,
            ;
            let (some, all) = ((b + 1) * num_multi, batch * num_multi);
            assert(some * vocab <= all * vocab) by (nonlinear_arith)
                requires
                    some <= all,
                    vocab >= 0,
            ;
        }
        let start: usize = b * vocab;
        let mut flags: Vec<bool> = Vec::new();
        while flags.len() < vocab
            invariant
                flags@.len() <= vocab,
                start == b * vocab,
                start + vocab <= total,
                total == state.disallowed@.len(),
                forall|v: int|
                    0 <= v < flags@.len() ==> #[trigger] flags@[v] == state.disallowed@[start + v],
            decreases vocab - flags@.len(),
        {
            let flag: bool = state.disallowed[start + flags.len()];
            flags.push(flag);
        }
        assert(flags@ =~= flag_row(state.disallowed@, vocab as nat, b as int));
        let row: RowFlags = select_row(
            logits,
            task_loss,
            num_multi,
            vocab,
            b,
            state.current_len,
            config,
            flags,
            state.finished[b],
        );
        assert(row.row() == rows(b as int));
        let ghost before = disallowed@;
        let mut v: usize = 0;
        while v < vocab
            invariant
                v <= vocab,
                row.disallowed@.len() == vocab,
                before.len() == b * vocab,
                disallowed@.len() == b * vocab + v,
                forall|i: int| 0 <= i < before.len() ==> disallowed@[i] == before[i],
                forall|w: int|
                    0 <= w < v ==> #[trigger] disallowed@[b * vocab + w] == row.disallowed@[w],
            decreases vocab - v,
        {
            disallowed.push(row.disallowed[v]);
            v = v + 1;
        }
        proof {
            assert forall|c: int| 0 <= c < b + 1 implies #[trigger] flag_row(
                disallowed@,
                vocab as nat,
                c,
            ) == rows(c).disallowed by {
                if c == b {
                    assert(flag_row(disallowed@, vocab as nat, c) =~= row.disallowed@);
                } else {
                    assert(flag_row(disallowed@, vocab as nat, c) =~= flag_row(
                        before,
                        vocab as nat,
                        c,
                    )) by {
                        assert(0 <= c * vocab && c * vocab + vocab <= b * vocab)
                            by (nonlinear_arith)
                            requires
                                0 <= c,
                                c + 1 <= b,
                                vocab >= 0,
                        ;
                    }
                }
            }
        }
        tokens.push(row.tokens);
        valid.push(row.valid);
        finished.push(row.finished);
        b = b + 1;
    }
    let selection: DeviceGreedySelection = DeviceGreedySelection {
        tokens,
        valid,
        finished,
        disallowed,
    };
    proof {
        assert forall|b: int| 0 <= b < batch implies #[trigger] selection.holds_row(
            rows(b),
            vocab as nat,
            b,
        ) by {
            assert(selection.tokens@[b]@ == rows(b).tokens);
            assert(selection.valid@[b]@ == rows(b).valid);
            assert(selection.finished@[b] == rows(b).finished);
            assert(flag_row(selection.disallowed@, vocab as nat, b) == rows(b).disallowed);
        }
    }
    selection
}

/// The rows that take no more tokens after a block: those that took none before, and those that
/// yielded an invalid slot.
pub fn device_finished_after_selection_block(finished: &[bool], valid: &[Vec<bool>]) -> (r: Vec<bool>)
    requires
        finished@.len() == valid@.len(),
    ensures
        r@.len() == finished@.len(),
        forall|b: int|
            0 <= b < finished@.len() ==> #[trigger] r@[b] == (finished@[b] || valid@[b]@.contains(
                false,
            )),
{
    let mut result: Vec<bool> = Vec::new();
    let mut b: usize = 0;
    while b < finished.len()
        invariant
            b <= finished@.len(),
            finished@.len() == valid@.len(),
            result@.len() == b,
            forall|c: int|
                0 <= c < b ==> #[trigger] result@[c] == (finished@[c] || valid@[c]@.contains(false)),
        decreases finished@.len() - b,
    {
        let row: &Vec<bool> = &valid[b];
        let mut gap: bool = false;
        let mut i: usize = 0;
        while i < row.len()
            invariant
                i <= row@.len(),
                gap == exists|k: int| 0 <= k < i && !(#[trigger] row@[k]),
            decreases row@.len() - i,
        {
            if !row[i] {
                gap = true;
            }
            i = i + 1;
        }
        assert(gap == row@.contains(false)) by {
            if gap {
                let k = choose|k: int| 0 <= k < i && !(#[trigger] row@[k]);
                assert(row@[k] == false);
            }
        }
        result.push(finished[b] || gap);
        b = b + 1;
    }
    result
}

/// The slots of row `b` in the first `n` steps, end to end.
pub open spec fn joined_slots<T>(steps: Seq<Vec<Vec<T>>>, b: int, n: nat) -> Seq<T>
    decreases n,
{
    if n == 0 {
        Seq::empty()
    } else {
        joined_slots(steps, b, (n - 1) as nat) + steps[n - 1]@[b]@
    }
}

/// Every step has a row for each row of the batch, and the rows have `slots` slots over all steps.
pub open spec fn steps_fit<T>(steps: Seq<Vec<Vec<T>>>, batch: nat, slots: nat) -> bool {
    &&& forall|n: int| 0 <= n < steps.len() ==> (#[trigger] steps[n])@.len() == batch
    &&& forall|b: int|
        0 <= b < batch ==> (#[trigger] joined_slots(steps, b, steps.len())).len() == slots
}

/// A validity mark as a number.
pub open spec fn mark(valid: bool) -> Binary32 {
    single(
        if valid {
            ONE_BITS
        } else {
            ZERO_BITS
        },
    )
}

/// The packed form of row `b`: its tokens, and then its validity marks.
pub open spec fn packed_slots(
    token_steps: Seq<Vec<Vec<i64>>>,
    valid_steps: Seq<Vec<Vec<bool>>>,
    b: int,
) -> Seq<Binary32> {
    joined_slots(token_steps, b, token_steps.len()).map_values(|t: i64| Binary32::of_int(t as int))
        + joined_slots(valid_steps, b, valid_steps.len()).map_values(|v: bool| mark(v))
}

/// Puts the tokens and the validity of the steps of a chunk side by side, row by row, as numbers.
pub fn pack_device_greedy_chunk(
    token_steps: &[Vec<Vec<i64>>],
    valid_steps: &[Vec<Vec<bool>>],
    batch: usize,
    slots: usize,
) -> (r: Vec<Binary32>)
    requires
        steps_fit(token_steps@, batch as nat, slots as nat),
        steps_fit(valid_steps@, batch as nat, slots as nat),
    ensures
        r@.len() == batch * (2 * slots),
        forall|b: int|
            0 <= b < batch ==> #[trigger] packed_slots(token_steps@, valid_steps@, b) == r@.subrange(
                b * (2 * slots),
                (b + 1) * (2 * slots),
            ),
{
    let mut packed: Vec<Binary32> = Vec::new();
    let mut b: usize = 0;
    assert(0 * (2 * slots) == 0);
    while b < batch
        invariant
            b <= batch,
            steps_fit(token_steps@, batch as nat, slots as nat),
            steps_fit(valid_steps@, batch as nat, slots as nat),
            packed@.len() == b * (2 * slots),
            forall|c: int|
                0 <= c < b ==> #[trigger] packed_slots(token_steps@, valid_steps@, c)
                    == packed@.subrange(c * (2 * slots), (c + 1) * (2 * slots)),
        decreases batch - b,
    {
        let ghost before = packed@;
        let ghost tokens = joined_slots(token_steps@, b as int, token_steps@.len());
        let ghost marks = joined_slots(valid_steps@, b as int, valid_steps@.len());
        pack_tokens(&mut packed, token_steps, b);
        pack_marks(&mut packed, valid_steps, b);
        proof {
            let width = 2 * slots;
            assert((b + 1) * width == b * width + width) by (nonlinear_arith);
            assert(tokens.len() == slots);
            assert(marks.len() == slots);
            assert(packed@ == before + packed_slots(token_steps@, valid_steps@, b as int));
            assert forall|c: int| 0 <= c < b + 1 implies #[trigger] packed_slots(
                token_steps@,
                valid_steps@,
                c,
            ) == packed@.subrange(c * (2 * slots), (c + 1) * (2 * slots)) by {
                if c < b {
                    assert(0 <= c * width && c * width + width == (c + 1) * width && (c + 1) * width
                        <= b * width) by (nonlinear_arith)
                        requires
                            0 <= c,
                            c + 1 <= b,
                            width >= 0,
                    ;
                    assert(packed@.subrange(c * width, (c + 1) * width) =~= before.subrange(
                        c * width,
                        (c + 1) * width,
                    ));
                } else {
                    assert(packed@.subrange(b * width, (b + 1) * width) =~= packed_slots(
                        token_steps@,
                        valid_steps@,
                        c,
                    ));
                }
            }
        }
        b = b + 1;
    }
    packed
}

/// Appends the tokens of row `b`.
fn pack_tokens(packed: &mut Vec<Binary32>, steps: &[Vec<Vec<i64>>], b: usize)
    requires
        forall|n: int| 0 <= n < steps@.len() ==> b < (#[trigger] steps@[n])@.len(),
    ensures
        final(packed)@ == old(packed)@ + joined_slots(steps@, b as int, steps@.len()).map_values(
            |t: i64| Binary32::of_int(t as int),
        ),
{
    let ghost before = packed@;
    let ghost number = |t: i64| Binary32::of_int(t as int);
    let mut n: usize = 0;
    assert(packed@ =~= before + joined_slots(steps@, b as int, 0).map_values(number));
    while n < steps.len()
        invariant
            n <= steps@.len(),
            forall|n: int| 0 <= n < steps@.len() ==> b < (#[trigger] steps@[n])@.len(),
            number == (|t: i64| Binary32::of_int(t as int)),
            packed@ == before + joined_slots(steps@, b as int, n as nat).map_values(number),
        decreases steps@.len() - n,
    {
        let ghost so_far = joined_slots(steps@, b as int, n as nat);
        let row: &Vec<i64> = &steps[n][b];
        let mut i: usize = 0;
        assert(packed@ =~= before + (so_far + row@.take(0)).map_values(number));
        while i < row.len()
            invariant
                i <= row@.len(),
                number == (|t: i64| Binary32::of_int(t as int)),
                packed@ == before + (so_far + row@.take(i as int)).map_values(number),
            decreases row@.len() - i,
        {
            packed.push(Binary32::from_i64(row[i]));
            i = i + 1;
            assert(packed@ =~= before + (so_far + row@.take(i as int)).map_values(number));
        }
        assert(row@.take(i as int) =~= row@);
        n = n + 1;
    }
}

/// Appends the validity marks of row `b`.
fn pack_marks(packed: &mut Vec<Binary32>, steps: &[Vec<Vec<bool>>], b: usize)
    requires
        forall|n: int| 0 <= n < steps@.len() ==> b < (#[trigger] steps@[n])@.len(),
    ensures
        final(packed)@ == old(packed)@ + joined_slots(steps@, b as int, steps@.len()).map_values(
            |v: bool| mark(v),
        ),
{
    let ghost before = packed@;
    let ghost number = |v: bool| mark(v);
    let mut n: usize = 0;
    assert(packed@ =~= before + joined_slots(steps@, b as int, 0).map_values(number));
    while n < steps.len()
        invariant
            n <= steps@.len(),
            forall|n: int| 0 <= n < steps@.len() ==> b < (#[trigger] steps@[n])@.len(),
            number == (|v: bool| mark(v)),
            packed@ == before + joined_slots(steps@, b as int, n as nat).map_values(number),
        decreases steps@.len() - n,
    {
        let ghost so_far = joined_slots(steps@, b as int, n as nat);
        let row: &Vec<bool> = &steps[n][b];
        let mut i: usize = 0;
        assert(packed@ =~= before + (so_far + row@.take(0)).map_values(number));
        while i < row.len()
            invariant
                i <= row@.len(),
                number == (|v: bool| mark(v)),
                packed@ == before + (so_far + row@.take(i as int)).map_values(number),
            decreases row@.len() - i,
        {
            packed.push(
                single(
                    if row[i] {
                        ONE_BITS
                    } else {
                        ZERO_BITS
                    },
                ),
            );
            i = i + 1;
            assert(packed@ =~= before + (so_far + row@.take(i as int)).map_values(number));
        }
        assert(row@.take(i as int) =~= row@);
        n = n + 1;
    }
}

/// Reading a packed chunk gives back the tokens and the validity that were packed, where the tokens
/// are whole numbers of at most 24 binary digits.
pub proof fn lemma_chunk_reads_back(
    packed: Seq<Binary32>,
    token_steps: Seq<Vec<Vec<i64>>>,
    valid_steps: Seq<Vec<Vec<bool>>>,
    batch: nat,
    slots: nat,
    b: int,
    i: int,
)
    requires
        steps_fit(token_steps, batch, slots),
        steps_fit(valid_steps, batch, slots),
        packed.len() == batch * (2 * slots),
        packed_slots(token_steps, valid_steps, b) == packed.subrange(
            b * (2 * slots),
            (b + 1) * (2 * slots),
        ),
        0 <= b < batch,
        0 <= i < slots,
        -0x100_0000 < joined_slots(token_steps, b, token_steps.len())[i] < 0x100_0000,
    ensures
        device_token(packed, slots as int, b, i) == joined_slots(
            token_steps,
            b,
            token_steps.len(),
        )[i],
        device_valid(packed, slots as int, b, i) == joined_slots(
            valid_steps,
            b,
            valid_steps.len(),
        )[i],
{
    let tokens = joined_slots(token_steps, b, token_steps.len());
    let marks = joined_slots(valid_steps, b, valid_steps.len());
    let row = packed_slots(token_steps, valid_steps, b);
    let width = 2 * slots as int;
    assert(0 <= b * width && b * width + width == (b + 1) * width && (b + 1) * width <= batch
        * width) by (nonlinear_arith)
        requires
            0 <= b,
            b + 1 <= batch,
            width >= 0,
    ;
    assert(tokens.len() == slots);
    assert(marks.len() == slots);
    let part = packed.subrange(b * (2 * slots), (b + 1) * (2 * slots));
    assert(part[i] == packed[b * width + i]);
    assert(part[slots + i] == packed[b * width + slots + i]);
    assert(row[i] == Binary32::of_int(tokens[i] as int));
    assert(row[slots + i] == mark(marks[i]));
    lemma_whole_numbers_exact(tokens[i]);
}

/// Every token of the vocabulary has been taken.
pub open spec fn all_taken(rules: RowRules, picked: Seq<i64>, vocab: nat) -> bool {
    forall|v: nat| v < vocab ==> #[trigger] disallowed(rules.eos, rules.prior, picked, v)
}

/// The best of the scores of step `j` that a row may take counts: it is finite and not far below
/// zero, and no other that may be taken is undefined or infinitely high. A row that has taken every
/// token has no score to count.
pub open spec fn best_counts(row: RowScores, rules: RowRules, picked: Seq<i64>, j: int) -> bool {
    let base = row.row_base + j * row.vocab;
    ||| all_taken(rules, picked, row.vocab)
    ||| {
        &&& exists|v: nat|
            v < row.vocab && !(#[trigger] disallowed(rules.eos, rules.prior, picked, v))
                && row.scores[base + v].finite() && single(LEAST_SCORE_BITS).lt(
                row.scores[base + v],
            )
        &&& forall|v: nat|
            v < row.vocab && !(#[trigger] disallowed(rules.eos, rules.prior, picked, v))
                ==> row.scores[base + v].finite() || row.scores[base + v].lt(
                single(HIDDEN_SCORE_BITS),
            )
    }
}

/// In every step of a block in which the row takes tokens, the best score counts.
pub open spec fn scores_count(row: RowScores, rules: RowRules, m: nat) -> bool {
    forall|j: nat|
        j < m && row_active(rules, #[trigger] row_selection(row, rules, j)) ==> best_counts(
            row,
            rules,
            row_selection(row, rules, j).picked,
            j as int,
        )
}

/// The flags are those of the tokens that the lists rule out.
pub open spec fn flags_match(
    hidden: Seq<bool>,
    rules: RowRules,
    picked: Seq<i64>,
    vocab: nat,
) -> bool {
    &&& hidden.len() == vocab
    &&& forall|v: int|
        0 <= v < vocab ==> #[trigger] hidden[v] == disallowed(
            rules.eos,
            rules.prior,
            picked,
            v as nat,
        )
}

/// A score that no other exceeds, and that exceeds those before it, is the first of the highest.
proof fn lemma_highest_is_best(scores: Seq<Binary32>, base: int, hidden: Seq<bool>, h: int, k: nat)
    requires
        0 <= h,
        forall|v: int|
            0 <= v < h ==> (#[trigger] masked_score(scores, base, hidden, true, v)).lt(
                masked_score(scores, base, hidden, true, h),
            ),
        forall|v: int|
            0 <= v < k ==> !masked_score(scores, base, hidden, true, h).lt(
                #[trigger] masked_score(scores, base, hidden, true, v),
            ),
    ensures
        k >= 1 ==> 0 <= device_best(scores, base, hidden, true, k) < k,
        h < k ==> device_best(scores, base, hidden, true, k) == h,
    decreases k,
{
    if k > 1 {
        lemma_highest_is_best(scores, base, hidden, h, (k - 1) as nat);
        let before = device_best(scores, base, hidden, true, (k - 1) as nat);
        assert(before < h ==> masked_score(scores, base, hidden, true, before).lt(
            masked_score(scores, base, hidden, true, h),
        ));
        assert(!masked_score(scores, base, hidden, true, h).lt(
            masked_score(scores, base, hidden, true, k - 1),
        ));
    }
}

/// The best of the masked scores is the best of the scores that are not masked.
proof fn lemma_masked_best(
    row: RowScores,
    rules: RowRules,
    picked: Seq<i64>,
    hidden: Seq<bool>,
    j: int,
)
    requires
        best_counts(row, rules, picked, j),
        flags_match(hidden, rules, picked, row.vocab),
        row.vocab > 0,
    ensures
        ({
            let base = row.row_base + j * row.vocab;
            let best = device_best(row.scores, base, hidden, true, row.vocab);
            let score = masked_score(row.scores, base, hidden, true, best);
            &&& 0 <= best < row.vocab
            &&& match best_token(row.scores, base, rules.eos, rules.prior, picked, row.vocab) {
                Some(b) => best == b && !hidden[best] && single(LEAST_SCORE_BITS).lt(score),
                None => all_taken(rules, picked, row.vocab) && score == single(HIDDEN_SCORE_BITS),
            }
        }),
{
    let base = row.row_base + j * row.vocab;
    let hiding = single(HIDDEN_SCORE_BITS);
    lemma_best_token(row.scores, base, rules.eos, rules.prior, picked, row.vocab);
    if all_taken(rules, picked, row.vocab) {
        assert forall|v: int| 0 <= v < row.vocab implies #[trigger] masked_score(
            row.scores,
            base,
            hidden,
            true,
            v,
        ) == hiding by {
            assert(disallowed(rules.eos, rules.prior, picked, v as nat));
            assert(hidden[v]);
        }
        lemma_highest_is_best(row.scores, base, hidden, 0, row.vocab);
    } else {
        let counts = choose|v: nat|
            v < row.vocab && !(#[trigger] disallowed(rules.eos, rules.prior, picked, v))
                && row.scores[base + v].finite() && single(LEAST_SCORE_BITS).lt(
                row.scores[base + v],
            );
        let b = best_token(row.scores, base, rules.eos, rules.prior, picked, row.vocab)->0;
        let highest = row.scores[base + b];
        assert(row.scores[base + counts].le(highest));
        assert(!hidden[b as int]);
        assert forall|v: int| 0 <= v < row.vocab implies (v < b ==> masked_score(
            row.scores,
            base,
            hidden,
            true,
            v,
        ).lt(highest)) && !highest.lt(
            #[trigger] masked_score(row.scores, base, hidden, true, v),
        ) by {
            let barred = disallowed(rules.eos, rules.prior, picked, v as nat);
            assert(hidden[v] == barred);
        }
        lemma_highest_is_best(row.scores, base, hidden, b as int, row.vocab);
    }
}

/// A block that is selected by flags has the tokens and the validity of the block that is selected
/// by lists, with end tokens in the slots that the latter leaves out. The flags stay in step: after
/// a block without an invalid slot they are those of the tokens taken so far, so that the next
/// block starts as this one did.
pub proof fn lemma_device_selection_matches_host(
    row: RowScores,
    rules: RowRules,
    config: DeviceGreedySelectionConfig,
    hidden: Seq<bool>,
    m: nat,
)
    requires
        0 < row.vocab <= i64::MAX,
        row.vocab <= usize::MAX,
        config.eos_token_id == rules.eos,
        config.max_tokens == rules.max_tokens,
        config.task_loss_stop == rules.stop,
        flags_match(hidden, rules, Seq::empty(), row.vocab),
        scores_count(row, rules, m),
    ensures
        ({
            let host = row_selection(row, rules, m);
            let device = device_block(
                row,
                config,
                rules.prior.len(),
                hidden,
                rules.finished,
                m,
            );
            &&& device.tokens == padded(host.tokens, m, rules.eos)
            &&& device.valid == padded(host.valid, m, false)
            &&& flags_match(device.disallowed, rules, host.picked, row.vocab)
            &&& device.finished ==> rules.finished || device.valid.contains(false)
            &&& !device.valid.contains(false) ==> flags_match(
                device.disallowed,
                RowRules { prior: rules.prior + host.tokens, ..rules },
                Seq::empty(),
                row.vocab,
            )
        }),
{
    lemma_device_rows(row, rules, config, hidden, m);
    lemma_row_selection(row, rules, m);
    let host = row_selection(row, rules, m);
    let device = device_block(row, config, rules.prior.len(), hidden, rules.finished, m);
    if !device.valid.contains(false) {
        assert(host.tokens.len() == m) by {
            if host.tokens.len() < m {
                assert(device.valid[host.valid.len() as int] == false);
            }
        }
        assert(host.tokens =~= host.picked) by {
            assert forall|i: int| 0 <= i < host.tokens.len() implies host.tokens[i]
                == host.picked[i] by {
                assert(device.valid[i] == host.valid[i]);
                assert(host.valid[i]) by {
                    if !host.valid[i] {
                        assert(device.valid[i] == false);
                    }
                }
            }
        }
        let later = RowRules { prior: rules.prior + host.tokens, ..rules };
        assert forall|v: int| 0 <= v < row.vocab implies #[trigger] device.disallowed[v]
            == disallowed(later.eos, later.prior, Seq::empty(), v as nat) by {
            lemma_mentions_joined(rules.prior, host.tokens, v as nat);
        }
    }
}

proof fn lemma_mentions_joined(first: Seq<i64>, second: Seq<i64>, v: nat)
    ensures
        mentions(first + second, v) == (mentions(first, v) || mentions(second, v)),
{
    let whole = first + second;
    if mentions(first, v) {
        let i = choose|i: int|
            0 <= i < first.len() && #[trigger] first[i] >= 0 && first[i] as usize == v;
        assert(whole[i] == first[i]);
    }
    if mentions(second, v) {
        let i = choose|i: int|
            0 <= i < second.len() && #[trigger] second[i] >= 0 && second[i] as usize == v;
        assert(whole[first.len() + i] == second[i]);
    }
    if mentions(whole, v) {
        let i = choose|i: int|
            0 <= i < whole.len() && #[trigger] whole[i] >= 0 && whole[i] as usize == v;
        if i < first.len() {
            assert(first[i] == whole[i]);
        } else {
            assert(second[i - first.len()] == whole[i]);
        }
    }
}

/// The two selections after `m` steps.
proof fn lemma_device_rows(
    row: RowScores,
    rules: RowRules,
    config: DeviceGreedySelectionConfig,
    hidden: Seq<bool>,
    m: nat,
)
    requires
        0 < row.vocab <= i64::MAX,
        row.vocab <= usize::MAX,
        config.eos_token_id == rules.eos,
        config.max_tokens == rules.max_tokens,
        config.task_loss_stop == rules.stop,
        flags_match(hidden, rules, Seq::empty(), row.vocab),
        scores_count(row, rules, m),
    ensures
        ({
            let host = row_selection(row, rules, m);
            let device = device_block(
                row,
                config,
                rules.prior.len(),
                hidden,
                rules.finished,
                m,
            );
            &&& device.tokens == padded(host.tokens, m, rules.eos)
            &&& device.valid == padded(host.valid, m, false)
            &&& device.tokens.len() == m
            &&& device.valid.len() == m
            &&& flags_match(device.disallowed, rules, host.picked, row.vocab)
            &&& device.finished ==> rules.finished || device.valid.contains(false)
            &&& device.finished ==> rules.finished || all_taken(rules, host.picked, row.vocab)
            &&& rules.finished ==> device.finished
            &&& host.tokens.len() == m ==> !host.halted
            &&& host.tokens.len() < m ==> rules.finished || rules.prior.len() + host.tokens.len()
                >= rules.max_tokens || all_taken(rules, host.picked, row.vocab)
        }),
    decreases m,
{
    if m > 0 {
        let n = (m - 1) as nat;
        assert(scores_count(row, rules, n));
        lemma_device_rows(row, rules, config, hidden, n);
        lemma_row_selection(row, rules, n);
        lemma_row_selection(row, rules, m);
        let host = row_selection(row, rules, n);
        let device = device_block(row, config, rules.prior.len(), hidden, rules.finished, n);
        let host_after = row_selection(row, rules, m);
        let device_after = device_block(row, config, rules.prior.len(), hidden, rules.finished, m);
        let base = row.row_base + n * row.vocab;
        let active = rules.prior.len() + n < rules.max_tokens && !device.finished;
        lemma_best_token(row.scores, base, rules.eos, rules.prior, host.picked, row.vocab);
        if active {
            assert(best_counts(row, rules, host.picked, n as int)) by {
                if !all_taken(rules, host.picked, row.vocab) {
                    assert(row_active(rules, row_selection(row, rules, n)));
                }
            }
            lemma_masked_best(row, rules, host.picked, device.disallowed, n as int);
        } else {
            lemma_inactive_best(row.scores, base, device.disallowed, row.vocab);
        }
        assert(device.valid.contains(false) ==> device_after.valid.contains(false)) by {
            if device.valid.contains(false) {
                let i = choose|i: int| 0 <= i < device.valid.len() && device.valid[i] == false;
                assert(device_after.valid[i] == false);
            }
        }
        assert(device_after.valid.last() == device_after.valid[n as int]);
        let picks = active && best_token(
            row.scores,
            base,
            rules.eos,
            rules.prior,
            host.picked,
            row.vocab,
        ) is Some;
        if picks {
            let best = device_best(row.scores, base, device.disallowed, true, row.vocab);
            assert(!disallowed(rules.eos, rules.prior, host.picked, best as nat));
            assert(host.tokens.len() == n);
            assert(row_active(rules, host));
            assert(host_after.picked == host.picked.push(best as i64));
            assert forall|v: int| 0 <= v < row.vocab implies #[trigger] device_after.disallowed[v]
                == disallowed(rules.eos, rules.prior, host_after.picked, v as nat) by {
                lemma_mentions_pushed(host.picked, best as i64, v as nat);
            }
            assert(device_after.tokens =~= padded(host_after.tokens, m, rules.eos));
            assert(device_after.valid =~= padded(host_after.valid, m, false));
        } else {
            assert(host_after.tokens == host.tokens && host_after.picked == host.picked
                && host_after.valid == host.valid);
            assert(device_after.tokens =~= padded(host.tokens, m, rules.eos));
            assert(device_after.valid =~= padded(host.valid, m, false));
        }
    }
}

proof fn lemma_mentions_pushed(tokens: Seq<i64>, token: i64, v: nat)
    ensures
        mentions(tokens.push(token), v) == (mentions(tokens, v) || token >= 0 && token as usize
            == v),
{
    lemma_mentions_joined(tokens, seq![token], v);
    assert(tokens.push(token) =~= tokens + seq![token]);
    let one = seq![token];
    if token >= 0 && token as usize == v {
        assert(one[0] == token);
    }
}

/// Where a row takes nothing, no score counts.
proof fn lemma_inactive_best(scores: Seq<Binary32>, base: int, hidden: Seq<bool>, k: nat)
    ensures
        masked_score(scores, base, hidden, false, device_best(scores, base, hidden, false, k))
            == single(HIDDEN_SCORE_BITS),
{
}

} // verus!
