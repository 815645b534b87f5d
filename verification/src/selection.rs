//! Greedy selection of the next block of gaze tokens from a decoder's scores.
//!
//! Every row of a batch is decided on its own. A step picks the allowed token with the highest
//! finite score; a token is allowed once per frame, and the end token never. Where the predicted
//! task loss of a step meets the requirement, the step yields an end token in place of its pick.
use crate::arith::{max_int, max_usize};
use crate::ieee::Binary32;
use crate::trace::{single, HALF_BITS, ONE_BITS, ZERO_BITS};
use vstd::prelude::*;

verus! {

/// The task loss at or below which a step yields no token. The first step of a frame is exempt.
#[derive(Clone, Copy, Debug, PartialEq, Eq, Structural)]
pub struct TaskLossStop {
    pub requirement: Option<Binary32>,
    pub is_first_token: bool,
}

/// What the selection of a block depends on besides the scores.
#[derive(Clone, Copy, Debug)]
pub struct GreedySelectionContext<'a> {
    /// The tokens already selected for each row of the frame.
    pub prior_tokens: &'a [Vec<i64>],
    /// The rows that take no more tokens.
    pub finished: &'a [bool],
    pub eos_token_id: i64,
    /// The most tokens that a row takes in the frame.
    pub max_tokens: usize,
    pub task_loss_stop: TaskLossStop,
}

/// A selected block: rows of equal length, padded with end tokens.
#[derive(Clone, Debug)]
pub struct GreedyTokenSelection {
    pub tokens: Vec<Vec<i64>>,
    pub valid: Vec<Vec<bool>>,
    pub confidences: Vec<Vec<Binary32>>,
}

/// The scores of one row: step `j` proposes token `v` with the score at `row_base + j * vocab + v`
/// and predicts the task loss at `task_base + j`. Weights lie like scores.
pub struct RowScores {
    pub scores: Seq<Binary32>,
    pub weights: Seq<Binary32>,
    pub row_base: int,
    pub vocab: nat,
    pub tasks: Seq<Binary32>,
    pub task_base: int,
}

/// What is selected of one row.
pub struct RowSelection {
    pub tokens: Seq<i64>,
    /// The picks, those that a task loss turned into end tokens included.
    pub picked: Seq<i64>,
    pub valid: Seq<bool>,
    pub confidences: Seq<Binary32>,
    pub halted: bool,
}

/// Some token of `tokens` is the vocabulary entry `v`.
pub open spec fn mentions(tokens: Seq<i64>, v: nat) -> bool {
    exists|i: int| 0 <= i < tokens.len() && #[trigger] tokens[i] >= 0 && tokens[i] as usize == v
}

/// `v` is the end token or was taken before.
pub open spec fn disallowed(eos: i64, prior: Seq<i64>, picked: Seq<i64>, v: nat) -> bool {
    (eos >= 0 && eos as usize == v) || mentions(prior, v) || mentions(picked, v)
}

/// The token with the highest finite score among the first `k` that are allowed, the first such.
pub open spec fn best_token(
    scores: Seq<Binary32>,
    base: int,
    eos: i64,
    prior: Seq<i64>,
    picked: Seq<i64>,
    k: nat,
) -> Option<nat>
    decreases k,
{
    if k == 0 {
        None
    } else {
        let v = (k - 1) as nat;
        let before = best_token(scores, base, eos, prior, picked, v);
        let score = scores[base + v];
        if disallowed(eos, prior, picked, v) || !score.finite() {
            before
        } else {
            match before {
                Some(b) => if scores[base + b].lt(score) {
                    Some(v)
                } else {
                    Some(b)
                },
                None => Some(v),
            }
        }
    }
}

/// The sum of the weights of the allowed tokens with a finite score among the first `k`.
pub open spec fn weight_total(
    row: RowScores,
    base: int,
    eos: i64,
    prior: Seq<i64>,
    picked: Seq<i64>,
    k: nat,
) -> Binary32
    decreases k,
{
    if k == 0 {
        single(ZERO_BITS)
    } else {
        let v = (k - 1) as nat;
        let before = weight_total(row, base, eos, prior, picked, v);
        if disallowed(eos, prior, picked, v) || !row.scores[base + v].finite() {
            before
        } else {
            before.plus(row.weights[base + v])
        }
    }
}

/// The pick's share of the total weight; one where the total is not positive.
pub open spec fn share_of(weight: Binary32, total: Binary32) -> Binary32 {
    if single(ZERO_BITS).lt(total) {
        weight.over(total)
    } else {
        single(ONE_BITS)
    }
}

/// A share that is a positive number; one in place of any other.
pub open spec fn corrected(share: Binary32) -> Binary32 {
    if share.finite() && single(ZERO_BITS).lt(share) {
        share
    } else {
        single(ONE_BITS)
    }
}

/// The confidence of a pick: its share of the total weight, corrected unless the scores are kept
/// apart from their task losses.
pub open spec fn confidence_of(weight: Binary32, total: Binary32, apart: bool) -> Binary32 {
    if apart {
        share_of(weight, total)
    } else {
        corrected(share_of(weight, total))
    }
}

/// The task loss of step `j` meets the requirement.
pub open spec fn meets_requirement(stop: TaskLossStop, j: int, task_loss: Binary32) -> bool {
    stop.requirement is Some && !(stop.is_first_token && j == 0) && task_loss.le(
        stop.requirement->0,
    )
}

/// What is fixed for a row while a block is selected.
pub struct RowRules {
    pub prior: Seq<i64>,
    pub finished: bool,
    pub eos: i64,
    pub max_tokens: nat,
    pub stop: TaskLossStop,
    /// Whether the scores are kept apart from their task losses. A step without a candidate ends
    /// the row where they are.
    pub apart: bool,
}

/// The row can take another token.
pub open spec fn row_active(rules: RowRules, state: RowSelection) -> bool {
    !state.halted && !rules.finished && rules.prior.len() + state.tokens.len() < rules.max_tokens
}

/// Step `j` of a row.
pub open spec fn row_step(
    row: RowScores,
    rules: RowRules,
    state: RowSelection,
    j: int,
) -> RowSelection {
    let base = row.row_base + j * row.vocab;
    if !row_active(rules, state) {
        state
    } else {
        match best_token(row.scores, base, rules.eos, rules.prior, state.picked, row.vocab) {
            None => RowSelection { halted: rules.apart, ..state },
            Some(b) => {
                let stopped = meets_requirement(rules.stop, j, row.tasks[row.task_base + j]);
                RowSelection {
                    tokens: state.tokens.push(
                        if stopped {
                            rules.eos
                        } else {
                            b as i64
                        },
                    ),
                    picked: state.picked.push(b as i64),
                    valid: state.valid.push(!stopped),
                    confidences: state.confidences.push(
                        if stopped {
                            single(ZERO_BITS)
                        } else {
                            confidence_of(
                                row.weights[base + b],
                                weight_total(
                                    row,
                                    base,
                                    rules.eos,
                                    rules.prior,
                                    state.picked,
                                    row.vocab,
                                ),
                                rules.apart,
                            )
                        },
                    ),
                    halted: false,
                }
            },
        }
    }
}

/// What the first `m` steps select of a row.
pub open spec fn row_selection(row: RowScores, rules: RowRules, m: nat) -> RowSelection
    decreases m,
{
    if m == 0 {
        RowSelection {
            tokens: Seq::empty(),
            picked: Seq::empty(),
            valid: Seq::empty(),
            confidences: Seq::empty(),
            halted: false,
        }
    } else {
        row_step(row, rules, row_selection(row, rules, (m - 1) as nat), m - 1)
    }
}

/// `s` continued with `fill` up to `len`.
pub open spec fn padded<T>(s: Seq<T>, len: nat, fill: T) -> Seq<T> {
    if s.len() >= len {
        s
    } else {
        s + Seq::new((len - s.len()) as nat, |i: int| fill)
    }
}

/// The longest selection among the first `k` rows.
pub open spec fn longest_selection(rows: spec_fn(int) -> RowSelection, k: nat) -> nat
    decreases k,
{
    if k == 0 {
        0
    } else {
        max_int(
            longest_selection(rows, (k - 1) as nat) as int,
            rows(k - 1).tokens.len() as int,
        ) as nat
    }
}

impl GreedyTokenSelection {
    /// Row by row what `rows` says, padded to the longest row.
    pub open spec fn holds(
        self,
        rows: spec_fn(int) -> RowSelection,
        batch: nat,
        eos: i64,
    ) -> bool {
        let len = longest_selection(rows, batch);
        &&& self.tokens@.len() == batch
        &&& self.valid@.len() == batch
        &&& self.confidences@.len() == batch
        &&& forall|b: int|
            0 <= b < batch ==> (#[trigger] self.tokens@[b])@ == padded(rows(b).tokens, len, eos)
        &&& forall|b: int|
            0 <= b < batch ==> (#[trigger] self.valid@[b])@ == padded(rows(b).valid, len, false)
        &&& forall|b: int|
            0 <= b < batch ==> (#[trigger] self.confidences@[b])@ == padded(
                rows(b).confidences,
                len,
                single(ZERO_BITS),
            )
    }

    /// No tokens for any row.
    pub open spec fn empty_rows(self, batch: nat) -> bool {
        &&& self.tokens@.len() == batch
        &&& self.valid@.len() == batch
        &&& self.confidences@.len() == batch
        &&& forall|b: int| 0 <= b < batch ==> (#[trigger] self.tokens@[b])@.len() == 0
        &&& forall|b: int| 0 <= b < batch ==> (#[trigger] self.valid@[b])@.len() == 0
        &&& forall|b: int| 0 <= b < batch ==> (#[trigger] self.confidences@[b])@.len() == 0
    }
}

impl<'a> GreedySelectionContext<'a> {
    /// The rules of row `b`.
    pub open spec fn rules(self, b: int, apart: bool) -> RowRules {
        RowRules {
            prior: self.prior_tokens@[b]@,
            finished: b < self.finished@.len() && self.finished@[b],
            eos: self.eos_token_id,
            max_tokens: self.max_tokens as nat,
            stop: self.task_loss_stop,
            apart,
        }
    }
}

fn mentions_token(tokens: &Vec<i64>, v: usize) -> (r: bool)
    ensures
        r == mentions(tokens@, v as nat),
{
    let mut i: usize = 0;
    while i < tokens.len()
        invariant
            i <= tokens@.len(),
            forall|j: int| 0 <= j < i ==> !(#[trigger] tokens@[j] >= 0 && tokens@[j] as usize == v),
        decreases tokens@.len() - i,
    {
        if tokens[i] >= 0 && tokens[i] as usize == v {
            return true;
        }
        i = i + 1;
    }
    false
}

/// The selected part of a row while its block is decided.
struct RowBuilder {
    tokens: Vec<i64>,
    picked: Vec<i64>,
    valid: Vec<bool>,
    confidences: Vec<Binary32>,
    halted: bool,
}

impl RowBuilder {
    spec fn state(self) -> RowSelection {
        RowSelection {
            tokens: self.tokens@,
            picked: self.picked@,
            valid: self.valid@,
            confidences: self.confidences@,
            halted: self.halted,
        }
    }
}

/// Where the scores of one row lie.
#[derive(Clone, Copy)]
struct RowSource<'a> {
    scores: &'a [Binary32],
    weights: &'a [Binary32],
    row_base: usize,
    vocab: usize,
    tasks: &'a [Binary32],
    task_base: usize,
}

impl<'a> RowSource<'a> {
    spec fn row(self) -> RowScores {
        RowScores {
            scores: self.scores@,
            weights: self.weights@,
            row_base: self.row_base as int,
            vocab: self.vocab as nat,
            tasks: self.tasks@,
            task_base: self.task_base as int,
        }
    }

    spec fn holds_steps(self, steps: nat, stop: TaskLossStop) -> bool {
        &&& self.weights@.len() == self.scores@.len()
        &&& self.row_base + steps * self.vocab <= self.scores@.len()
        &&& stop.requirement is Some ==> self.task_base + steps <= self.tasks@.len()
        &&& self.scores@.len() <= usize::MAX
        &&& self.tasks@.len() <= usize::MAX
    }
}

/// Decides step `j` of a row.
fn select_step(
    source: RowSource<'_>,
    prior: &Vec<i64>,
    eos: i64,
    stop: TaskLossStop,
    apart: bool,
    j: usize,
    builder: &mut RowBuilder,
    rules: Ghost<RowRules>,
    steps: Ghost<nat>,
)
    requires
        source.holds_steps(steps@, stop),
        j < steps@,
        rules@.prior == prior@,
        rules@.eos == eos,
        rules@.stop == stop,
        rules@.apart == apart,
        row_active(rules@, old(builder).state()),
        source.vocab <= i64::MAX,
    ensures
        final(builder).state() == row_step(source.row(), rules@, old(builder).state(), j as int),
{
    let ghost row = source.row();
    let ghost picked = builder.picked@;
    let vocab: usize = source.vocab;
    proof {
        assert(source.row_base + j * vocab + vocab <= source.scores@.len()) by (nonlinear_arith)
            requires
                source.row_base + steps@ * vocab <= source.scores@.len(),
                j + 1 <= steps@,
                vocab >= 0,
        ;
        assert(0 <= j * vocab) by (nonlinear_arith)
            requires
                0 <= j,
                0 <= vocab,
        ;
    }
    let base: usize = source.row_base + j * vocab;
    let mut best: Option<usize> = None;
    let mut total: Binary32 = single(ZERO_BITS);
    let mut v: usize = 0;
    while v < vocab
        invariant
            v <= vocab,
            row == source.row(),
            vocab == source.vocab,
            base + vocab <= source.scores@.len(),
            source.weights@.len() == source.scores@.len(),
            source.scores@.len() <= usize::MAX,
            builder.picked@ == picked,
            match best {
                Some(b) => b < v && best_token(
                    source.scores@,
                    base as int,
                    eos,
                    prior@,
                    picked,
                    v as nat,
                ) == Some(b as nat),
                None => best_token(source.scores@, base as int, eos, prior@, picked, v as nat)
                    is None,
            },
            total == weight_total(row, base as int, eos, prior@, picked, v as nat),
            *builder == *old(builder),
        decreases vocab - v,
    {
        let banned: bool = (eos >= 0 && eos as usize == v) || mentions_token(prior, v)
            || mentions_token(&builder.picked, v);
        let score: Binary32 = source.scores[base + v];
        if !banned && score.is_finite() {
            total = total.plus(source.weights[base + v]);
            match best {
                Some(b) => {
                    if source.scores[base + b].lt(score) {
                        best = Some(v);
                    }
                },
                None => {
                    best = Some(v);
                },
            }
        }
        v = v + 1;
    }
    match best {
        Some(b) => {
            let stopped: bool = match stop.requirement {
                Some(threshold) => !(stop.is_first_token && j == 0)
                    && source.tasks[source.task_base + j].le(threshold),
                None => false,
            };
            let share: Binary32 = if single(ZERO_BITS).lt(total) {
                source.weights[base + b].over(total)
            } else {
                single(ONE_BITS)
            };
            let confidence: Binary32 = if apart || share.is_finite() && single(ZERO_BITS).lt(
                share,
            ) {
                share
            } else {
                single(ONE_BITS)
            };
            builder.picked.push(b as i64);
            builder.tokens.push(
                if stopped {
                    eos
                } else {
                    b as i64
                },
            );
            builder.valid.push(!stopped);
            builder.confidences.push(
                if stopped {
                    single(ZERO_BITS)
                } else {
                    confidence
                },
            );
            builder.halted = false;
        },
        None => {
            builder.halted = apart;
        },
    }
}

proof fn lemma_inactive_row(row: RowScores, rules: RowRules, m: nat, n: nat)
    requires
        m <= n,
        !row_active(rules, row_selection(row, rules, m)),
    ensures
        row_selection(row, rules, n) == row_selection(row, rules, m),
    decreases n,
{
    if m < n {
        lemma_inactive_row(row, rules, m, (n - 1) as nat);
    }
}

/// Decides all steps of a row.
fn select_row(
    source: RowSource<'_>,
    prior: &Vec<i64>,
    finished: bool,
    eos: i64,
    max_tokens: usize,
    stop: TaskLossStop,
    apart: bool,
    steps: usize,
) -> (r: RowBuilder)
    requires
        source.holds_steps(steps as nat, stop),
        source.vocab <= i64::MAX,
    ensures
        r.state() == row_selection(
            source.row(),
            RowRules {
                prior: prior@,
                finished,
                eos,
                max_tokens: max_tokens as nat,
                stop,
                apart,
            },
            steps as nat,
        ),
{
    let ghost rules = RowRules {
        prior: prior@,
        finished,
        eos,
        max_tokens: max_tokens as nat,
        stop,
        apart,
    };
    let mut builder: RowBuilder = RowBuilder {
        tokens: Vec::new(),
        picked: Vec::new(),
        valid: Vec::new(),
        confidences: Vec::new(),
        halted: false,
    };
    let mut j: usize = 0;
    while j < steps
        invariant
            j <= steps,
            source.holds_steps(steps as nat, stop),
            source.vocab <= i64::MAX,
            rules == (RowRules {
                prior: prior@,
                finished,
                eos,
                max_tokens: max_tokens as nat,
                stop,
                apart,
            }),
            builder.state() == row_selection(source.row(), rules, j as nat),
        decreases steps - j,
    {
        if builder.halted || finished || prior.len() >= max_tokens || builder.tokens.len()
            >= max_tokens - prior.len() {
            proof {
                lemma_inactive_row(source.row(), rules, j as nat, steps as nat);
            }
            return builder;
        }
        select_step(
            source,
            prior,
            eos,
            stop,
            apart,
            j,
            &mut builder,
            Ghost(rules),
            Ghost(steps as nat),
        );
        j = j + 1;
    }
    builder
}

fn pad_tokens(row: &mut Vec<i64>, len: usize, fill: i64)
    ensures
        final(row)@ == padded(old(row)@, len as nat, fill),
{
    let ghost given = row@;
    while row.len() < len
        invariant
            row@.len() >= given.len(),
            row@.len() <= len || row@ == given,
            row@ == padded(given, row@.len(), fill),
        decreases len - row@.len(),
    {
        row.push(fill);
        assert(row@ =~= padded(given, row@.len(), fill));
    }
}

fn pad_valid(row: &mut Vec<bool>, len: usize)
    ensures
        final(row)@ == padded(old(row)@, len as nat, false),
{
    let ghost given = row@;
    while row.len() < len
        invariant
            row@.len() >= given.len(),
            row@.len() <= len || row@ == given,
            row@ == padded(given, row@.len(), false),
        decreases len - row@.len(),
    {
        row.push(false);
        assert(row@ =~= padded(given, row@.len(), false));
    }
}

fn pad_confidences(row: &mut Vec<Binary32>, len: usize)
    ensures
        final(row)@ == padded(old(row)@, len as nat, single(ZERO_BITS)),
{
    let ghost given = row@;
    while row.len() < len
        invariant
            row@.len() >= given.len(),
            row@.len() <= len || row@ == given,
            row@ == padded(given, row@.len(), single(ZERO_BITS)),
        decreases len - row@.len(),
    {
        row.push(single(ZERO_BITS));
        assert(row@ =~= padded(given, row@.len(), single(ZERO_BITS)));
    }
}

impl GreedyTokenSelection {
    /// No tokens for any row.
    pub fn empty(batch: usize) -> (r: GreedyTokenSelection)
        ensures
            r.empty_rows(batch as nat),
    {
        let mut tokens: Vec<Vec<i64>> = Vec::new();
        let mut valid: Vec<Vec<bool>> = Vec::new();
        let mut confidences: Vec<Vec<Binary32>> = Vec::new();
        while tokens.len() < batch
            invariant
                tokens@.len() <= batch,
                valid@.len() == tokens@.len(),
                confidences@.len() == tokens@.len(),
                forall|b: int| 0 <= b < tokens@.len() ==> (#[trigger] tokens@[b])@.len() == 0,
                forall|b: int| 0 <= b < valid@.len() ==> (#[trigger] valid@[b])@.len() == 0,
                forall|b: int|
                    0 <= b < confidences@.len() ==> (#[trigger] confidences@[b])@.len() == 0,
            decreases batch - tokens@.len(),
        {
            tokens.push(Vec::new());
            valid.push(Vec::new());
            confidences.push(Vec::new());
        }
        GreedyTokenSelection { tokens, valid, confidences }
    }

    /// Pads the rows to the longest one.
    fn finish(
        tokens: Vec<Vec<i64>>,
        valid: Vec<Vec<bool>>,
        confidences: Vec<Vec<Binary32>>,
        longest: usize,
        eos: i64,
        rows: Ghost<spec_fn(int) -> RowSelection>,
    ) -> (r: GreedyTokenSelection)
        requires
            valid@.len() == tokens@.len(),
            confidences@.len() == tokens@.len(),
            forall|b: int|
                0 <= b < tokens@.len() ==> (#[trigger] tokens@[b])@ == rows@(b).tokens,
            forall|b: int| 0 <= b < tokens@.len() ==> (#[trigger] valid@[b])@ == rows@(b).valid,
            forall|b: int|
                0 <= b < tokens@.len() ==> (#[trigger] confidences@[b])@ == rows@(b).confidences,
            longest == longest_selection(rows@, tokens@.len()),
        ensures
            r.holds(rows@, tokens@.len(), eos),
    {
        let ghost batch = tokens@.len();
        let mut tokens: Vec<Vec<i64>> = tokens;
        let mut valid: Vec<Vec<bool>> = valid;
        let mut confidences: Vec<Vec<Binary32>> = confidences;
        let mut b: usize = 0;
        while b < tokens.len()
            invariant
                b <= batch,
                tokens@.len() == batch,
                valid@.len() == batch,
                confidences@.len() == batch,
                forall|c: int|
                    b <= c < batch ==> (#[trigger] tokens@[c])@ == rows@(c).tokens,
                forall|c: int| b <= c < batch ==> (#[trigger] valid@[c])@ == rows@(c).valid,
                forall|c: int|
                    b <= c < batch ==> (#[trigger] confidences@[c])@ == rows@(c).confidences,
                forall|c: int|
                    0 <= c < b ==> (#[trigger] tokens@[c])@ == padded(
                        rows@(c).tokens,
                        longest as nat,
                        eos,
                    ),
                forall|c: int|
                    0 <= c < b ==> (#[trigger] valid@[c])@ == padded(
                        rows@(c).valid,
                        longest as nat,
                        false,
                    ),
                forall|c: int|
                    0 <= c < b ==> (#[trigger] confidences@[c])@ == padded(
                        rows@(c).confidences,
                        longest as nat,
                        single(ZERO_BITS),
                    ),
            decreases batch - b,
        {
            pad_tokens(&mut tokens[b], longest, eos);
            pad_valid(&mut valid[b], longest);
            pad_confidences(&mut confidences[b], longest);
            b = b + 1;
        }
        GreedyTokenSelection { tokens, valid, confidences }
    }
}

/// The length of one packed row: the scores of all steps, then their task losses.
pub open spec fn packed_stride(num_multi: nat, vocab: nat) -> nat {
    num_multi * vocab + num_multi
}

/// The scores of row `b` in packed data.
pub open spec fn packed_row(
    values: Seq<Binary32>,
    weights: Seq<Binary32>,
    num_multi: nat,
    vocab: nat,
    b: int,
) -> RowScores {
    RowScores {
        scores: values,
        weights,
        row_base: b * packed_stride(num_multi, vocab),
        vocab,
        tasks: values,
        task_base: b * packed_stride(num_multi, vocab) + num_multi * vocab,
    }
}

/// Selects a block from packed rows, each holding the scores of `num_multi` steps and then their
/// task losses. `weights` holds the exponential of every value, in the same order. `None` where
/// there are too few values.
pub fn greedy_select_multi_tokens_from_packed_data(
    values: &[Binary32],
    weights: &[Binary32],
    batch: usize,
    num_multi: usize,
    vocab: usize,
    context: GreedySelectionContext<'_>,
) -> (r: Option<GreedyTokenSelection>)
    requires
        weights@.len() == values@.len(),
        context.prior_tokens@.len() >= batch,
        vocab <= i64::MAX,
    ensures
        match r {
            Some(selection) => {
                &&& packed_stride(num_multi as nat, vocab as nat) <= usize::MAX
                &&& batch * packed_stride(num_multi as nat, vocab as nat) <= values@.len()
                &&& selection.holds(
                    |b: int|
                        row_selection(
                            packed_row(
                                values@,
                                weights@,
                                num_multi as nat,
                                vocab as nat,
                                b,
                            ),
                            context.rules(b, false),
                            num_multi as nat,
                        ),
                    batch as nat,
                    context.eos_token_id,
                )
            },
            None => packed_stride(num_multi as nat, vocab as nat) > usize::MAX || batch
                * packed_stride(num_multi as nat, vocab as nat) > values@.len(),
        },
{
    let total: usize = values.len();
    let ghost row_of = |b: int|
        row_selection(
            packed_row(values@, weights@, num_multi as nat, vocab as nat, b),
            context.rules(b, false),
            num_multi as nat,
        );
    let step_values: usize = match num_multi.checked_mul(vocab) {
        Some(v) => v,
        None => {
            return None;
        },
    };
    let stride: usize = match step_values.checked_add(num_multi) {
        Some(v) => v,
        None => {
            return None;
        },
    };
    let needed: usize = match batch.checked_mul(stride) {
        Some(v) => v,
        None => {
            return None;
        },
    };
    if total < needed {
        return None;
    }
    let mut tokens: Vec<Vec<i64>> = Vec::new();
    let mut valid: Vec<Vec<bool>> = Vec::new();
    let mut confidences: Vec<Vec<Binary32>> = Vec::new();
    let mut longest: usize = 0;
    let mut b: usize = 0;
    while b < batch
        invariant
            b <= batch,
            weights@.len() == values@.len(),
            context.prior_tokens@.len() >= batch,
            vocab <= i64::MAX,
            step_values == num_multi * vocab,
            stride == step_values + num_multi,
            batch * stride <= total,
            total == values@.len(),
            row_of == (|b: int|
                row_selection(
                    packed_row(values@, weights@, num_multi as nat, vocab as nat, b),
                    context.rules(b, false),
                    num_multi as nat,
                )),
            tokens@.len() == b,
            valid@.len() == b,
            confidences@.len() == b,
            forall|c: int| 0 <= c < b ==> (#[trigger] tokens@[c])@ == row_of(c).tokens,
            forall|c: int| 0 <= c < b ==> (#[trigger] valid@[c])@ == row_of(c).valid,
            forall|c: int| 0 <= c < b ==> (#[trigger] confidences@[c])@ == row_of(c).confidences,
            longest == longest_selection(row_of, b as nat),
        decreases batch - b,
    {
        proof {
            assert(b * stride + stride <= batch * stride && 0 <= b * stride) by (nonlinear_arith)
                requires
                    0 <= b,
                    b + 1 <= batch,
                    stride >= 0,
            ;
        }
        let row_base: usize = b * stride;
        let source: RowSource<'_> = RowSource {
            scores: values,
            weights,
            row_base,
            vocab,
            tasks: values,
            task_base: row_base + step_values,
        };
        let finished: bool = b < context.finished.len() && context.finished[b];
        let row: RowBuilder = select_row(
            source,
            &context.prior_tokens[b],
            finished,
            context.eos_token_id,
            context.max_tokens,
            context.task_loss_stop,
            false,
            num_multi,
        );
        proof {
            assert(source.row() == packed_row(
                values@,
                weights@,
                num_multi as nat,
                vocab as nat,
                b as int,
            ));
            assert(row.state() == row_of(b as int));
        }
        longest = max_usize(longest, row.tokens.len());
        tokens.push(row.tokens);
        valid.push(row.valid);
        confidences.push(row.confidences);
        b = b + 1;
    }
    Some(
        GreedyTokenSelection::finish(
            tokens,
            valid,
            confidences,
            longest,
            context.eos_token_id,
            Ghost(row_of),
        ),
    )
}

/// Selects a block from packed rows; no tokens at all where there are too few values.
pub fn greedy_select_multi_tokens(
    values: &[Binary32],
    weights: &[Binary32],
    batch: usize,
    num_multi: usize,
    vocab: usize,
    context: GreedySelectionContext<'_>,
) -> (r: GreedyTokenSelection)
    requires
        weights@.len() == values@.len(),
        context.prior_tokens@.len() >= batch,
        vocab <= i64::MAX,
    ensures
        if packed_stride(num_multi as nat, vocab as nat) > usize::MAX || batch * packed_stride(
            num_multi as nat,
            vocab as nat,
        ) > values@.len() {
            r.empty_rows(batch as nat)
        } else {
            r.holds(
                |b: int|
                    row_selection(
                        packed_row(values@, weights@, num_multi as nat, vocab as nat, b),
                        context.rules(b, false),
                        num_multi as nat,
                    ),
                batch as nat,
                context.eos_token_id,
            )
        },
{
    match greedy_select_multi_tokens_from_packed_data(
        values,
        weights,
        batch,
        num_multi,
        vocab,
        context,
    ) {
        Some(selection) => {
            proof {
                if packed_stride(num_multi as nat, vocab as nat) > usize::MAX {
                    if batch > 0 {
                        assert(batch * packed_stride(num_multi as nat, vocab as nat)
                            >= packed_stride(num_multi as nat, vocab as nat)) by (nonlinear_arith)
                            requires
                                batch >= 1,
                                packed_stride(num_multi as nat, vocab as nat) >= 0,
                        ;
                    }
                }
            }
            selection
        },
        None => GreedyTokenSelection::empty(batch),
    }
}

/// The scores of row `b` where scores and task losses are kept apart.
pub open spec fn separate_row(
    scores: Seq<Binary32>,
    weights: Seq<Binary32>,
    tasks: Seq<Binary32>,
    num_multi: nat,
    vocab: nat,
    b: int,
) -> RowScores {
    RowScores {
        scores,
        weights,
        row_base: (b * num_multi) * vocab,
        vocab,
        tasks,
        task_base: b * num_multi,
    }
}

/// Selects a block from scores and task losses that are kept apart. A step without a candidate
/// ends its row, and shares stay as they are computed.
pub fn greedy_select_multi_tokens_from_data(
    scores: &[Binary32],
    weights: &[Binary32],
    task_losses: &[Binary32],
    batch: usize,
    num_multi: usize,
    vocab: usize,
    context: GreedySelectionContext<'_>,
) -> (r: GreedyTokenSelection)
    requires
        weights@.len() == scores@.len(),
        scores@.len() >= batch * num_multi * vocab,
        context.task_loss_stop.requirement is Some ==> task_losses@.len() >= batch * num_multi,
        batch * num_multi <= usize::MAX,
        context.prior_tokens@.len() >= batch,
        vocab <= i64::MAX,
    ensures
        r.holds(
            |b: int|
                row_selection(
                    separate_row(
                        scores@,
                        weights@,
                        task_losses@,
                        num_multi as nat,
                        vocab as nat,
                        b,
                    ),
                    context.rules(b, true),
                    num_multi as nat,
                ),
            batch as nat,
            context.eos_token_id,
        ),
{
    let total: usize = scores.len();
    let losses: usize = task_losses.len();
    let ghost row_of = |b: int|
        row_selection(
            separate_row(scores@, weights@, task_losses@, num_multi as nat, vocab as nat, b),
            context.rules(b, true),
            num_multi as nat,
        );
    let mut tokens: Vec<Vec<i64>> = Vec::new();
    let mut valid: Vec<Vec<bool>> = Vec::new();
    let mut confidences: Vec<Vec<Binary32>> = Vec::new();
    let mut longest: usize = 0;
    let mut b: usize = 0;
    while b < batch
        invariant
            b <= batch,
            weights@.len() == scores@.len(),
            scores@.len() >= batch * num_multi * vocab,
            context.task_loss_stop.requirement is Some ==> task_losses@.len() >= batch * num_multi,
            batch * num_multi <= usize::MAX,
            total == scores@.len(),
            losses == task_losses@.len(),
            context.prior_tokens@.len() >= batch,
            vocab <= i64::MAX,
            row_of == (|b: int|
                row_selection(
                    separate_row(
                        scores@,
                        weights@,
                        task_losses@,
                        num_multi as nat,
                        vocab as nat,
                        b,
                    ),
                    context.rules(b, true),
                    num_multi as nat,
                )),
            tokens@.len() == b,
            valid@.len() == b,
            confidences@.len() == b,
            forall|c: int| 0 <= c < b ==> (#[trigger] tokens@[c])@ == row_of(c).tokens,
            forall|c: int| 0 <= c < b ==> (#[trigger] valid@[c])@ == row_of(c).valid,
            forall|c: int| 0 <= c < b ==> (#[trigger] confidences@[c])@ == row_of(c).confidences,
            longest == longest_selection(row_of, b as nat),
        decreases batch - b,
    {
        proof {
            assert(0 <= b * num_multi && b * num_multi + num_multi <= batch * num_multi)
                by (nonlinear_arith)
                requires
                    0 <= b,
                    b + 1 <= batch,
                    num_multi >= 0,
            ;
            let before = b * num_multi;
            let all = batch * num_multi;
            assert(0 <= before * vocab && before * vocab + num_multi * vocab <= all * vocab)
                by (nonlinear_arith)
                requires
                    0 <= before,
                    before + num_multi <= all,
                    vocab >= 0,
            ;
            assert(0 <= num_multi * vocab) by (nonlinear_arith)
                requires
                    num_multi >= 0,
                    vocab >= 0,
            ;
        }
        let task_base: usize = b * num_multi;
        let row_base: usize = task_base * vocab;
        let source: RowSource<'_> = RowSource {
            scores,
            weights,
            row_base,
            vocab,
            tasks: task_losses,
            task_base,
        };
        let finished: bool = b < context.finished.len() && context.finished[b];
        let row: RowBuilder = select_row(
            source,
            &context.prior_tokens[b],
            finished,
            context.eos_token_id,
            context.max_tokens,
            context.task_loss_stop,
            true,
            num_multi,
        );
        proof {
            assert(source.row() == separate_row(
                scores@,
                weights@,
                task_losses@,
                num_multi as nat,
                vocab as nat,
                b as int,
            ));
            assert(row.state() == row_of(b as int));
        }
        longest = max_usize(longest, row.tokens.len());
        tokens.push(row.tokens);
        valid.push(row.valid);
        confidences.push(row.confidences);
        b = b + 1;
    }
    GreedyTokenSelection::finish(
        tokens,
        valid,
        confidences,
        longest,
        context.eos_token_id,
        Ghost(row_of),
    )
}

/// A block read back from a device: each packed row holds `slots` tokens and then their validity
/// marks. Valid tokens have confidence one, the others zero. `None` where there are too few values.
pub fn device_greedy_chunk_from_packed_data(
    values: &[Binary32],
    batch: usize,
    slots: usize,
) -> (r: Option<GreedyTokenSelection>)
    ensures
        match r {
            Some(selection) => {
                &&& 2 * slots <= usize::MAX
                &&& batch * (2 * slots) <= values@.len()
                &&& selection.tokens@.len() == batch
                &&& selection.valid@.len() == batch
                &&& selection.confidences@.len() == batch
                &&& forall|b: int|
                    0 <= b < batch ==> (#[trigger] selection.tokens@[b])@ == Seq::new(
                        slots as nat,
                        |i: int| device_token(values@, slots as int, b, i),
                    )
                &&& forall|b: int|
                    0 <= b < batch ==> (#[trigger] selection.valid@[b])@ == Seq::new(
                        slots as nat,
                        |i: int| device_valid(values@, slots as int, b, i),
                    )
                &&& forall|b: int|
                    0 <= b < batch ==> (#[trigger] selection.confidences@[b])@ == Seq::new(
                        slots as nat,
                        |i: int|
                            single(
                                if device_valid(values@, slots as int, b, i) {
                                    ONE_BITS
                                } else {
                                    ZERO_BITS
                                },
                            ),
                    )
            },
            None => 2 * slots > usize::MAX || batch * (2 * slots) > values@.len(),
        },
{
    let total: usize = values.len();
    let stride: usize = match slots.checked_mul(2) {
        Some(v) => v,
        None => {
            return None;
        },
    };
    let needed: usize = match batch.checked_mul(stride) {
        Some(v) => v,
        None => {
            return None;
        },
    };
    if total < needed {
        return None;
    }
    let mut tokens: Vec<Vec<i64>> = Vec::new();
    let mut valid: Vec<Vec<bool>> = Vec::new();
    let mut confidences: Vec<Vec<Binary32>> = Vec::new();
    let mut b: usize = 0;
    while b < batch
        invariant
            b <= batch,
            stride == 2 * slots,
            batch * stride <= total,
            total == values@.len(),
            tokens@.len() == b,
            valid@.len() == b,
            confidences@.len() == b,
            forall|c: int|
                0 <= c < b ==> (#[trigger] tokens@[c])@ == Seq::new(
                    slots as nat,
                    |i: int| device_token(values@, slots as int, c, i),
                ),
            forall|c: int|
                0 <= c < b ==> (#[trigger] valid@[c])@ == Seq::new(
                    slots as nat,
                    |i: int| device_valid(values@, slots as int, c, i),
                ),
            forall|c: int|
                0 <= c < b ==> (#[trigger] confidences@[c])@ == Seq::new(
                    slots as nat,
                    |i: int|
                        single(
                            if device_valid(values@, slots as int, c, i) {
                                ONE_BITS
                            } else {
                                ZERO_BITS
                            },
                        ),
                ),
        decreases batch - b,
    {
        proof {
            assert(0 <= b * stride && b * stride + stride <= batch * stride) by (nonlinear_arith)
                requires
                    0 <= b,
                    b + 1 <= batch,
                    stride >= 0,
            ;
        }
        let row: usize = b * stride;
        let mut row_tokens: Vec<i64> = Vec::new();
        let mut row_valid: Vec<bool> = Vec::new();
        let mut row_confidences: Vec<Binary32> = Vec::new();
        let mut i: usize = 0;
        while i < slots
            invariant
                i <= slots,
                stride == 2 * slots,
                row == b * stride,
                row + stride <= total,
                total == values@.len(),
                row_tokens@.len() == i,
                row_valid@.len() == i,
                row_confidences@.len() == i,
                forall|k: int|
                    0 <= k < i ==> #[trigger] row_tokens@[k] == device_token(
                        values@,
                        slots as int,
                        b as int,
                        k,
                    ),
                forall|k: int|
                    0 <= k < i ==> #[trigger] row_valid@[k] == device_valid(
                        values@,
                        slots as int,
                        b as int,
                        k,
                    ),
                forall|k: int|
                    0 <= k < i ==> #[trigger] row_confidences@[k] == single(
                        if device_valid(values@, slots as int, b as int, k) {
                            ONE_BITS
                        } else {
                            ZERO_BITS
                        },
                    ),
            decreases slots - i,
        {
            let ok: bool = single(HALF_BITS).lt(values[row + slots + i]);
            row_tokens.push(values[row + i].round_i64());
            row_valid.push(ok);
            row_confidences.push(
                single(
                    if ok {
                        ONE_BITS
                    } else {
                        ZERO_BITS
                    },
                ),
            );
            i = i + 1;
        }
        proof {
            assert(row_tokens@ =~= Seq::new(
                slots as nat,
                |i: int| device_token(values@, slots as int, b as int, i),
            ));
            assert(row_valid@ =~= Seq::new(
                slots as nat,
                |i: int| device_valid(values@, slots as int, b as int, i),
            ));
            assert(row_confidences@ =~= Seq::new(
                slots as nat,
                |i: int|
                    single(
                        if device_valid(values@, slots as int, b as int, i) {
                            ONE_BITS
                        } else {
                            ZERO_BITS
                        },
                    ),
            ));
        }
        tokens.push(row_tokens);
        valid.push(row_valid);
        confidences.push(row_confidences);
        b = b + 1;
    }
    Some(GreedyTokenSelection { tokens, valid, confidences })
}

/// The token in slot `i` of row `b` of a device block.
pub open spec fn device_token(values: Seq<Binary32>, slots: int, b: int, i: int) -> i64 {
    let v = values[b * (2 * slots) + i];
    v.to_i64(v.round_int())
}

/// The validity of slot `i` of row `b` of a device block.
pub open spec fn device_valid(values: Seq<Binary32>, slots: int, b: int, i: int) -> bool {
    single(HALF_BITS).lt(values[b * (2 * slots) + slots + i])
}

/// The flags that keep a device selection from the end token and from the tokens already taken:
/// one row of `vocab` flags for each row of `prior_tokens`, at least one row.
pub fn disallowed_token_mask(
    prior_tokens: &[Vec<i64>],
    eos_token_id: i64,
    vocab: usize,
) -> (r: Vec<bool>)
    requires
        max_int(prior_tokens@.len() as int, 1) * vocab <= usize::MAX,
    ensures
        r@.len() == max_int(prior_tokens@.len() as int, 1) * vocab,
        forall|b: int, v: int|
            0 <= b < prior_tokens@.len() && 0 <= v < vocab ==> #[trigger] r@[b * vocab + v]
                == disallowed(eos_token_id, prior_tokens@[b]@, Seq::empty(), v as nat),
        prior_tokens@.len() == 0 ==> forall|i: int| 0 <= i < r@.len() ==> !r@[i],
{
    let mut flags: Vec<bool> = Vec::new();
    if prior_tokens.len() == 0 {
        while flags.len() < vocab
            invariant
                flags@.len() <= vocab,
                forall|i: int| 0 <= i < flags@.len() ==> !flags@[i],
            decreases vocab - flags@.len(),
        {
            flags.push(false);
        }
        assert(max_int(prior_tokens@.len() as int, 1) * vocab == vocab) by (nonlinear_arith)
            requires
                prior_tokens@.len() == 0,
        ;
        return flags;
    }
    let mut b: usize = 0;
    while b < prior_tokens.len()
        invariant
            b <= prior_tokens@.len(),
            prior_tokens@.len() * vocab <= usize::MAX,
            flags@.len() == b * vocab,
            forall|c: int, v: int|
                0 <= c < b && 0 <= v < vocab ==> #[trigger] flags@[c * vocab + v] == disallowed(
                    eos_token_id,
                    prior_tokens@[c]@,
                    Seq::empty(),
                    v as nat,
                ),
        decreases prior_tokens@.len() - b,
    {
        let ghost before = flags@;
        let mut v: usize = 0;
        while v < vocab
            invariant
                b < prior_tokens@.len(),
                v <= vocab,
                before.len() == b * vocab,
                flags@.len() == b * vocab + v,
                forall|i: int| 0 <= i < before.len() ==> flags@[i] == before[i],
                forall|w: int|
                    0 <= w < v ==> #[trigger] flags@[b * vocab + w] == disallowed(
                        eos_token_id,
                        prior_tokens@[b as int]@,
                        Seq::empty(),
                        w as nat,
                    ),
            decreases vocab - v,
        {
            let banned: bool = (eos_token_id >= 0 && eos_token_id as usize == v) || mentions_token(
                &prior_tokens[b],
                v,
            );
            flags.push(banned);
            v = v + 1;
        }
        proof {
            assert((b + 1) * vocab == b * vocab + vocab) by (nonlinear_arith);
            assert forall|c: int, v: int| 0 <= c < b + 1 && 0 <= v < vocab implies #[trigger] flags@[
            c * vocab + v] == disallowed(
                eos_token_id,
                prior_tokens@[c]@,
                Seq::empty(),
                v as nat,
            ) by {
                if c < b {
                    assert(0 <= c * vocab && c * vocab + v < b * vocab) by (nonlinear_arith)
                        requires
                            0 <= c,
                            c + 1 <= b,
                            0 <= v < vocab,
                    ;
                    assert(flags@[c * vocab + v] == before[c * vocab + v]);
                }
            }
        }
        b = b + 1;
    }
    flags
}

/// The pick of a step is allowed and finite, no allowed finite score is higher, and those before
/// it are lower.
pub proof fn lemma_best_token(
    scores: Seq<Binary32>,
    base: int,
    eos: i64,
    prior: Seq<i64>,
    picked: Seq<i64>,
    k: nat,
)
    ensures
        match best_token(scores, base, eos, prior, picked, k) {
            Some(b) => {
                &&& b < k
                &&& !disallowed(eos, prior, picked, b)
                &&& scores[base + b].finite()
                &&& forall|v: nat|
                    v < k && !(#[trigger] disallowed(eos, prior, picked, v)) && scores[base
                        + v].finite() ==> scores[base + v].le(scores[base + b])
                &&& forall|v: nat|
                    v < b && !(#[trigger] disallowed(eos, prior, picked, v)) && scores[base
                        + v].finite() ==> scores[base + v].lt(scores[base + b])
            },
            None => forall|v: nat|
                v < k ==> #[trigger] disallowed(eos, prior, picked, v) || !scores[base
                    + v].finite(),
        },
    decreases k,
{
    if k > 0 {
        lemma_best_token(scores, base, eos, prior, picked, (k - 1) as nat);
    }
}

/// The tokens of a row are never selected twice: its picks differ from each other, from the tokens
/// selected before and from the end token, every valid token is a pick, and the row stays within
/// its budget.
pub proof fn lemma_row_selection(row: RowScores, rules: RowRules, m: nat)
    requires
        row.vocab <= i64::MAX,
        row.vocab <= usize::MAX,
    ensures
        ({
            let state = row_selection(row, rules, m);
            &&& state.tokens.len() == state.picked.len()
            &&& state.tokens.len() == state.valid.len()
            &&& state.tokens.len() == state.confidences.len()
            &&& state.tokens.len() <= m
            &&& state.tokens.len() > 0 ==> rules.prior.len() + state.tokens.len()
                <= rules.max_tokens
            &&& forall|i: int|
                0 <= i < state.picked.len() ==> 0 <= #[trigger] state.picked[i] < row.vocab
                    && !mentions(rules.prior, state.picked[i] as nat) && !(rules.eos >= 0
                    && rules.eos as usize == state.picked[i])
            &&& forall|i: int, j: int|
                0 <= i < j < state.picked.len() ==> state.picked[i] != state.picked[j]
            &&& forall|i: int|
                0 <= i < state.tokens.len() ==> #[trigger] state.tokens[i] == if state.valid[i] {
                    state.picked[i]
                } else {
                    rules.eos
                }
        }),
    decreases m,
{
    if m > 0 {
        lemma_row_selection(row, rules, (m - 1) as nat);
        let state = row_selection(row, rules, (m - 1) as nat);
        let base = row.row_base + (m - 1) * row.vocab;
        lemma_best_token(row.scores, base, rules.eos, rules.prior, state.picked, row.vocab);
        if row_active(rules, state) {
            match best_token(
                row.scores,
                base,
                rules.eos,
                rules.prior,
                state.picked,
                row.vocab,
            ) {
                Some(b) => {
                    assert forall|i: int| 0 <= i < state.picked.len() implies state.picked[i]
                        != b as i64 by {
                        if state.picked[i] == b as i64 {
                            assert(mentions(state.picked, b));
                        }
                    }
                },
                None => {},
            }
        }
    }
}

/// Two rows hold the same scores, weights and task losses for the first `m` steps.
pub open spec fn same_scores(a: RowScores, b: RowScores, m: nat) -> bool {
    &&& a.vocab == b.vocab
    &&& forall|j: int, v: int|
        0 <= j < m && 0 <= v < a.vocab ==> #[trigger] a.scores[a.row_base + j * a.vocab + v]
            == b.scores[b.row_base + j * b.vocab + v] && a.weights[a.row_base + j * a.vocab + v]
            == b.weights[b.row_base + j * b.vocab + v]
    &&& forall|j: int|
        0 <= j < m ==> #[trigger] a.tasks[a.task_base + j] == b.tasks[b.task_base + j]
}

proof fn lemma_same_step(
    a: RowScores,
    b: RowScores,
    eos: i64,
    prior: Seq<i64>,
    picked: Seq<i64>,
    j: int,
    m: nat,
    k: nat,
)
    requires
        same_scores(a, b, m),
        0 <= j < m,
        k <= a.vocab,
    ensures
        best_token(a.scores, a.row_base + j * a.vocab, eos, prior, picked, k) == best_token(
            b.scores,
            b.row_base + j * b.vocab,
            eos,
            prior,
            picked,
            k,
        ),
        weight_total(a, a.row_base + j * a.vocab, eos, prior, picked, k) == weight_total(
            b,
            b.row_base + j * b.vocab,
            eos,
            prior,
            picked,
            k,
        ),
    decreases k,
{
    if k > 0 {
        lemma_same_step(a, b, eos, prior, picked, j, m, (k - 1) as nat);
        lemma_best_token(
            a.scores,
            a.row_base + j * a.vocab,
            eos,
            prior,
            picked,
            (k - 1) as nat,
        );
        let v = k - 1;
        assert(a.scores[a.row_base + j * a.vocab + v] == b.scores[b.row_base + j * b.vocab + v]);
        match best_token(a.scores, a.row_base + j * a.vocab, eos, prior, picked, (k - 1) as nat) {
            Some(w) => {
                assert(a.scores[a.row_base + j * a.vocab + w] == b.scores[b.row_base + j * b.vocab
                    + w]);
            },
            None => {},
        }
    }
}

/// The confidences of a packed row, given those of a row that is kept apart: those of valid picks
/// are corrected.
pub open spec fn corrected_picks(confidences: Seq<Binary32>, valid: Seq<bool>) -> Seq<Binary32> {
    Seq::new(
        confidences.len(),
        |i: int|
            if valid[i] {
                corrected(confidences[i])
            } else {
                confidences[i]
            },
    )
}

/// Packed and separate scores with the same contents select the same tokens, as long as no step
/// lacks a candidate; their confidences differ by the correction only.
pub proof fn lemma_selection_layouts_agree(
    packed: RowScores,
    separate: RowScores,
    rules: RowRules,
    m: nat,
)
    requires
        same_scores(packed, separate, m),
        !row_selection(separate, RowRules { apart: true, ..rules }, m).halted,
    ensures
        ({
            let one = row_selection(packed, RowRules { apart: false, ..rules }, m);
            let other = row_selection(separate, RowRules { apart: true, ..rules }, m);
            &&& one.tokens == other.tokens
            &&& one.picked == other.picked
            &&& one.valid == other.valid
            &&& one.confidences == corrected_picks(other.confidences, other.valid)
            &&& !one.halted
            &&& other.valid.len() == other.confidences.len()
        }),
    decreases m,
{
    if m > 0 {
        let going = RowRules { apart: false, ..rules };
        let halting = RowRules { apart: true, ..rules };
        let state = row_selection(separate, halting, (m - 1) as nat);
        assert(!state.halted) by {
            if state.halted {
                assert(!row_active(halting, state));
            }
        }
        lemma_selection_layouts_agree(packed, separate, rules, (m - 1) as nat);
        lemma_same_step(
            packed,
            separate,
            rules.eos,
            rules.prior,
            state.picked,
            m - 1,
            m,
            packed.vocab,
        );
        lemma_best_token(
            packed.scores,
            packed.row_base + (m - 1) * packed.vocab,
            rules.eos,
            rules.prior,
            state.picked,
            packed.vocab,
        );
        match best_token(
            packed.scores,
            packed.row_base + (m - 1) * packed.vocab,
            rules.eos,
            rules.prior,
            state.picked,
            packed.vocab,
        ) {
            Some(w) => {
                assert(packed.scores[packed.row_base + (m - 1) * packed.vocab + w]
                    == separate.scores[separate.row_base + (m - 1) * separate.vocab + w]);
            },
            None => {},
        }
        assert(packed.tasks[packed.task_base + (m - 1)] == separate.tasks[separate.task_base + (m
            - 1)]);
    }
}

} // verus!
