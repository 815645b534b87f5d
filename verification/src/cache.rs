//! What is kept between runs of the model: keys and values of attention, and the tails of
//! convolutions.
//!
//! The values themselves stay on the device. Here stand the ranges that are written, read and kept.
use crate::arith::{max_int, max_usize, min_int, min_usize};
use crate::trace::at_least_one;
use vstd::prelude::*;

verus! {

/// Where a run of queries stands in a key-value cache.
#[derive(Clone, Copy, Debug, PartialEq, Eq, Structural)]
pub struct CacheStep {
    /// The entries before the run; those of the run are written behind them.
    pub past_len: usize,
    /// The entries after the run; all of them are read.
    pub present_len: usize,
    /// The entries that a cache made for the run has room for.
    pub capacity: usize,
}

/// The step of a run of `query_len` queries.
pub fn cache_step(past_len: Option<usize>, query_len: usize, cache_capacity: usize) -> (r: CacheStep)
    requires
        past_len is Some ==> past_len->0 + query_len <= usize::MAX,
    ensures
        r.past_len == (match past_len {
            Some(len) => len,
            None => 0,
        }),
        r.present_len == r.past_len + query_len,
        r.capacity == at_least_one(max_int(cache_capacity as int, r.present_len as int) as nat),
        r.present_len <= r.capacity,
{
    let past: usize = match past_len {
        Some(len) => len,
        None => 0,
    };
    let present: usize = past + query_len;
    CacheStep {
        past_len: past,
        present_len: present,
        capacity: max_usize(max_usize(cache_capacity, present), 1),
    }
}

/// How often each key head is repeated so that there is one for every query head.
pub fn key_repeats(num_heads: usize, num_key_value_heads: usize) -> (r: usize)
    ensures
        r == at_least_one((num_heads as int / at_least_one(num_key_value_heads as nat) as int) as nat),
{
    max_usize(num_heads / max_usize(num_key_value_heads, 1), 1)
}

/// The entries in a cache: those of its first layer, or none where there is no cache.
pub fn cached_sequence_len(layer_lens: &Option<Vec<usize>>) -> (r: usize)
    ensures
        r == (match layer_lens {
            Some(lens) => if lens@.len() > 0 {
                lens@[0] as int
            } else {
                0
            },
            None => 0,
        }),
{
    match layer_lens {
        Some(lens) => if lens.len() > 0 {
            lens[0]
        } else {
            0
        },
        None => 0,
    }
}

/// How a cache drops its oldest entries: the range `from..to` moves to the front.
#[derive(Clone, Copy, Debug, PartialEq, Eq, Structural)]
pub struct Compaction {
    pub from: usize,
    pub to: usize,
    pub keep: usize,
}

/// Drops the oldest `drop` of `len` entries; `None` where there is nothing to drop.
pub fn plan_compaction(len: usize, drop: usize) -> (r: Option<Compaction>)
    ensures
        match r {
            Some(plan) => {
                &&& plan.from == min_int(drop as int, len as int)
                &&& plan.from > 0
                &&& plan.to == len
                &&& plan.keep == len - plan.from
            },
            None => drop == 0 || len == 0,
        },
{
    let from: usize = min_usize(drop, len);
    if from == 0 {
        None
    } else {
        Some(Compaction { from, to: len, keep: len - from })
    }
}

/// The entries after a compaction.
pub open spec fn compacted<A>(entries: Seq<A>, plan: Compaction) -> Seq<A> {
    Seq::new(
        entries.len(),
        |i: int|
            if i < plan.keep {
                entries[plan.from + i]
            } else {
                entries[i]
            },
    )
}

/// A compaction keeps the newest entries, in order.
pub proof fn lemma_compaction_keeps_tail<A>(entries: Seq<A>, plan: Compaction)
    requires
        plan.from <= plan.to <= entries.len(),
        plan.keep == plan.to - plan.from,
    ensures
        compacted(entries, plan).take(plan.keep as int) == entries.take(plan.to as int).skip(
            plan.from as int,
        ),
{
    assert(compacted(entries, plan).take(plan.keep as int) =~= entries.take(plan.to as int).skip(
        plan.from as int,
    ));
}

/// The entries that stay where the newest `drop` of `len` are given up.
pub fn truncated_len(len: usize, drop: usize) -> (r: usize)
    ensures
        r == max_int(len - drop, 0),
{
    if drop > len {
        0
    } else {
        len - drop
    }
}

/// How often a query is kept from a key: once where the key comes later, and once where the key is
/// masked.
pub open spec fn hidden(past_len: int, query: int, key: int, mask: Option<Seq<i64>>) -> int {
    (if key > past_len + query {
        1int
    } else {
        0int
    }) + (match mask {
        Some(row) => if row[key] == 0 {
            1int
        } else {
            0int
        },
        None => 0int,
    })
}

/// The masked keys of row `b`.
pub open spec fn mask_row(masks: Option<Vec<Vec<i64>>>, b: int) -> Option<Seq<i64>> {
    match masks {
        Some(rows) => Some(rows@[b]@),
        None => None,
    }
}

/// The rows of the bias: one for every row of the batch where there are masks, otherwise one for
/// all.
pub open spec fn bias_rows(masks: Option<Vec<Vec<i64>>>) -> nat {
    match masks {
        Some(rows) => rows@.len(),
        None => 1,
    }
}

/// Which keys each query is kept from, in units of the bias: row by row, query by query, key by
/// key. Masks hold one for a key that counts and zero for one that does not.
pub fn causal_attention_bias_for_query(
    query_len: usize,
    key_len: usize,
    past_len: usize,
    masks: &Option<Vec<Vec<i64>>>,
) -> (r: Vec<i64>)
    requires
        past_len + query_len <= usize::MAX,
        bias_rows(*masks) * query_len * key_len <= usize::MAX,
        masks matches Some(rows) ==> forall|b: int|
            0 <= b < rows@.len() ==> (#[trigger] rows@[b])@.len() >= key_len,
        masks matches Some(rows) ==> forall|b: int, k: int|
            0 <= b < rows@.len() && 0 <= k < key_len ==> (#[trigger] rows@[b]@[k]) == 0
                || rows@[b]@[k] == 1,
    ensures
        r@.len() == bias_rows(*masks) * query_len * key_len,
        forall|b: int, q: int, k: int|
            0 <= b < bias_rows(*masks) && 0 <= q < query_len && 0 <= k < key_len
                ==> #[trigger] r@[(b * query_len + q) * key_len + k] == hidden(
                past_len as int,
                q,
                k,
                mask_row(*masks, b),
            ),
{
    let rows: usize = match masks {
        Some(rows) => rows.len(),
        None => 1,
    };
    let mut units: Vec<i64> = Vec::new();
    let mut b: usize = 0;
    assert(0 * query_len == 0 && 0 * key_len == 0) by (nonlinear_arith);
    while b < rows
        invariant
            b <= rows,
            rows == bias_rows(*masks),
            past_len + query_len <= usize::MAX,
            masks matches Some(list) ==> forall|c: int|
                0 <= c < list@.len() ==> (#[trigger] list@[c])@.len() >= key_len,
            units@.len() == (b * query_len) * key_len,
            units_hold(units@, b * query_len, query_len as int, key_len as int, past_len as int, *masks),
        decreases rows - b,
    {
        let mut q: usize = 0;
        assert(b * query_len + 0 == b * query_len);
        while q < query_len
            invariant
                b < rows,
                q <= query_len,
                rows == bias_rows(*masks),
                past_len + query_len <= usize::MAX,
                masks matches Some(list) ==> forall|c: int|
                    0 <= c < list@.len() ==> (#[trigger] list@[c])@.len() >= key_len,
                units@.len() == (b * query_len + q) * key_len,
                units_hold(
                    units@,
                    b * query_len + q,
                    query_len as int,
                    key_len as int,
                    past_len as int,
                    *masks,
                ),
            decreases query_len - q,
        {
            let ghost before = units@;
            let ghost line = b * query_len + q;
            let mut k: usize = 0;
            while k < key_len
                invariant
                    b < rows,
                    q < query_len,
                    k <= key_len,
                    rows == bias_rows(*masks),
                    past_len + query_len <= usize::MAX,
                    masks matches Some(list) ==> forall|c: int|
                        0 <= c < list@.len() ==> (#[trigger] list@[c])@.len() >= key_len,
                    units@.len() == before.len() + k,
                    forall|i: int| 0 <= i < before.len() ==> #[trigger] units@[i] == before[i],
                    forall|j: int|
                        0 <= j < k ==> #[trigger] units@[before.len() + j] == hidden(
                            past_len as int,
                            q as int,
                            j,
                            mask_row(*masks, b as int),
                        ),
                decreases key_len - k,
            {
                let later: i64 = if k > past_len + q {
                    1
                } else {
                    0
                };
                let masked: i64 = match masks {
                    Some(list) => if list[b][k] == 0 {
                        1
                    } else {
                        0
                    },
                    None => 0,
                };
                units.push(later + masked);
                k = k + 1;
            }
            proof {
                assert((line + 1) * key_len == line * key_len + key_len) by (nonlinear_arith);
                lemma_units_extend(
                    before,
                    units@,
                    line,
                    b as int,
                    q as int,
                    query_len as int,
                    key_len as int,
                    past_len as int,
                    *masks,
                );
            }
            q = q + 1;
        }
        assert((b + 1) * query_len == b * query_len + query_len) by (nonlinear_arith);
        b = b + 1;
    }
    proof {
        assert forall|b: int, q: int, k: int|
            0 <= b < bias_rows(*masks) && 0 <= q < query_len && 0 <= k < key_len implies
            #[trigger] units@[(b * query_len + q) * key_len + k] == hidden(
            past_len as int,
            q,
            k,
            mask_row(*masks, b),
        ) by {
            let line = b * query_len + q;
            assert(0 <= line < rows * query_len) by (nonlinear_arith)
                requires
                    line == b * query_len + q,
                    0 <= b,
                    b + 1 <= rows,
                    0 <= q < query_len,
            ;
            vstd::arithmetic::div_mod::lemma_fundamental_div_mod_converse(
                line,
                query_len as int,
                b,
                q,
            );
            assert(line_holds(
                units@,
                line,
                query_len as int,
                key_len as int,
                past_len as int,
                *masks,
            ));
        }
    }
    units
}

/// The units of line `line` of the bias are right.
spec fn line_holds(
    units: Seq<i64>,
    line: int,
    query_len: int,
    key_len: int,
    past_len: int,
    masks: Option<Vec<Vec<i64>>>,
) -> bool {
    forall|k: int|
        0 <= k < key_len ==> #[trigger] units[line * key_len + k] == hidden(
            past_len,
            line % query_len,
            k,
            mask_row(masks, line / query_len),
        )
}

/// The units of the first `lines` lines are right.
spec fn units_hold(
    units: Seq<i64>,
    lines: int,
    query_len: int,
    key_len: int,
    past_len: int,
    masks: Option<Vec<Vec<i64>>>,
) -> bool {
    forall|line: int|
        0 <= line < lines ==> #[trigger] line_holds(
            units,
            line,
            query_len,
            key_len,
            past_len,
            masks,
        )
}

proof fn lemma_units_extend(
    before: Seq<i64>,
    units: Seq<i64>,
    line: int,
    b: int,
    q: int,
    query_len: int,
    key_len: int,
    past_len: int,
    masks: Option<Vec<Vec<i64>>>,
)
    requires
        0 <= b,
        0 <= q < query_len,
        0 <= key_len,
        line == b * query_len + q,
        line >= 0,
        before.len() == line * key_len,
        units.len() == before.len() + key_len,
        forall|i: int| 0 <= i < before.len() ==> #[trigger] units[i] == before[i],
        forall|j: int|
            0 <= j < key_len ==> #[trigger] units[before.len() + j] == hidden(
                past_len,
                q,
                j,
                mask_row(masks, b),
            ),
        units_hold(before, line, query_len, key_len, past_len, masks),
    ensures
        units_hold(units, line + 1, query_len, key_len, past_len, masks),
{
    vstd::arithmetic::div_mod::lemma_fundamental_div_mod_converse(line, query_len, b, q);
    assert forall|l: int| 0 <= l < line + 1 implies #[trigger] line_holds(
        units,
        l,
        query_len,
        key_len,
        past_len,
        masks,
    ) by {
        if l < line {
            assert(line_holds(before, l, query_len, key_len, past_len, masks));
            assert forall|k: int| 0 <= k < key_len implies #[trigger] units[l * key_len + k]
                == hidden(past_len, l % query_len, k, mask_row(masks, l / query_len)) by {
                assert(0 <= l * key_len + k < line * key_len) by (nonlinear_arith)
                    requires
                        0 <= l,
                        l + 1 <= line,
                        0 <= k < key_len,
                ;
                assert(units[l * key_len + k] == before[l * key_len + k]);
            }
        } else {
            assert forall|k: int| 0 <= k < key_len implies #[trigger] units[l * key_len + k]
                == hidden(past_len, l % query_len, k, mask_row(masks, l / query_len)) by {
                assert(units[before.len() + k] == hidden(past_len, q, k, mask_row(masks, b)));
            }
        }
    }
}

/// A query behind a cache sees what it would see in one run over the whole sequence.
pub proof fn lemma_cache_hides_the_same(past_len: nat, query: nat, key: nat, mask: Option<Seq<i64>>)
    ensures
        hidden(past_len as int, query as int, key as int, mask) == hidden(
            0,
            (past_len + query) as int,
            key as int,
            mask,
        ),
{
}

/// The last `keep` entries, or all of them.
pub open spec fn tail<A>(entries: Seq<A>, keep: nat) -> Seq<A> {
    if entries.len() > keep {
        entries.skip(entries.len() - keep)
    } else {
        entries
    }
}

/// How many frames a convolution over `temporal_patch_size` frames looks back.
pub open spec fn look_back(temporal_patch_size: nat) -> nat {
    if temporal_patch_size == 0 {
        0
    } else {
        (temporal_patch_size - 1) as nat
    }
}

/// The frames that a convolution keeps for the next run: the range of the last ones that it looks
/// back to.
pub fn conv_tail(time: usize, temporal_patch_size: usize) -> (r: (usize, usize))
    ensures
        r.1 == time,
        r.0 == max_int(time - look_back(temporal_patch_size as nat), 0),
{
    let keep: usize = if temporal_patch_size == 0 {
        0
    } else {
        temporal_patch_size - 1
    };
    let start: usize = if time > keep {
        time - keep
    } else {
        0
    };
    (start, time)
}

/// Running a convolution in two runs, the second behind the kept frames of the first, looks at the
/// same frames as one run, and keeps the same frames.
pub proof fn lemma_conv_runs_join<A>(first: Seq<A>, second: Seq<A>, keep: nat, i: int)
    requires
        first.len() >= keep,
        0 <= i < second.len(),
    ensures
        tail(first + second, keep) == tail(tail(first, keep) + second, keep),
        (tail(first, keep) + second).subrange(i, i + keep + 1) == (first + second).subrange(
            first.len() - keep + i,
            first.len() + i + 1,
        ),
{
    assert(tail(first + second, keep) =~= tail(tail(first, keep) + second, keep));
    assert((tail(first, keep) + second).subrange(i, i + keep + 1) =~= (first + second).subrange(
        first.len() - keep + i,
        first.len() + i + 1,
    ));
}

/// How the channels of a video are brought to three.
#[derive(Clone, Copy, Debug, PartialEq, Eq, Structural)]
pub enum ChannelPlan {
    /// There are three.
    Keep,
    /// One channel is repeated.
    Repeat,
    /// The first `keep` channels are taken; the others are zero.
    Pad { keep: usize },
}

pub fn adapt_video_channels(channels: usize) -> (r: ChannelPlan)
    ensures
        r == (if channels == 3 {
            ChannelPlan::Keep
        } else if channels == 1 {
            ChannelPlan::Repeat
        } else {
            ChannelPlan::Pad { keep: min_int(channels as int, 3) as usize }
        }),
{
    if channels == 3 {
        ChannelPlan::Keep
    } else if channels == 1 {
        ChannelPlan::Repeat
    } else {
        ChannelPlan::Pad { keep: min_usize(channels, 3) }
    }
}

/// Whether a clip is decoded with a key-value cache: only where it has several frames.
pub fn generates_cached(frames: usize) -> (r: bool)
    ensures
        r == (frames > 1),
{
    frames > 1
}

/// A query sees a key exactly where the key does not come later and is not masked. So it sees the
/// slot that it stands at, and a later query sees all that an earlier one does.
pub proof fn lemma_query_sees(past_len: nat, query: nat, key: nat, mask: Option<Seq<i64>>)
    ensures
        hidden(past_len as int, query as int, key as int, mask) == 0 <==> key <= past_len + query && (
        mask is None || mask->0[key as int] != 0),
        mask is None ==> hidden(
            past_len as int,
            query as int,
            (past_len + query) as int,
            mask,
        ) == 0,
        hidden(past_len as int, query as int, (past_len + query + 1) as int, mask) > 0,
        hidden(past_len as int, query as int, key as int, mask) == 0 ==> hidden(
            past_len as int,
            query as int + 1,
            key as int,
            mask,
        ) == 0,
{
}

} // verus!
