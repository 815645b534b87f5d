//! Attention masks and position ids of a decoded sequence, one row per batch entry.
//!
//! A row's mask marks the slots that later steps may attend to. A slot's position counts the marked
//! slots up to it; generated slots borrow the positions of the sequence tail until their validity
//! is known, and are then given their own.
use crate::arith::{max_int, max_usize, min_int, min_usize};
use vstd::prelude::*;

verus! {

/// How many of the first `k` slots are marked.
pub open spec fn valid_count(mask: Seq<i64>, k: nat) -> nat
    decreases k,
{
    if k == 0 {
        0
    } else {
        valid_count(mask, (k - 1) as nat) + if mask[k - 1] != 0 {
            1nat
        } else {
            0
        }
    }
}

/// An integer cut to the range of `i64`.
pub open spec fn cut_i64(v: int) -> i64 {
    if v < i64::MIN {
        i64::MIN
    } else if v > i64::MAX {
        i64::MAX
    } else {
        v as i64
    }
}

/// All rows of equal length end to end.
pub open spec fn flattened<T>(rows: Seq<Seq<T>>) -> Seq<T>
    decreases rows.len(),
{
    if rows.len() == 0 {
        Seq::empty()
    } else {
        flattened(rows.drop_last()) + rows.last()
    }
}

/// The first `len` entries of a mask row, continued with zeros.
pub open spec fn mask_prefix(row: Seq<i64>, len: nat) -> Seq<i64> {
    Seq::new(
        len,
        |i: int|
            if i < row.len() {
                row[i]
            } else {
                0
            },
    )
}

/// At least one row, and every row marks its first `seq_len` slots.
pub open spec fn all_marked(mask_rows: Seq<Vec<i64>>, seq_len: nat) -> bool {
    mask_rows.len() > 0 && forall|b: int|
        0 <= b < mask_rows.len() ==> row_marked((#[trigger] mask_rows[b])@, seq_len)
}

/// The row marks its first `seq_len` slots.
pub open spec fn row_marked(row: Seq<i64>, seq_len: nat) -> bool {
    row.len() >= seq_len && forall|i: int| 0 <= i < seq_len ==> row[i] != 0
}

/// Whether every row marks its first `seq_len` slots, so that no mask is needed.
pub fn attention_mask_rows_are_all_valid(mask_rows: &[Vec<i64>], seq_len: usize) -> (r: bool)
    ensures
        r == all_marked(mask_rows@, seq_len as nat),
{
    if mask_rows.len() == 0 {
        return false;
    }
    let mut b: usize = 0;
    while b < mask_rows.len()
        invariant
            b <= mask_rows@.len(),
            forall|c: int| 0 <= c < b ==> row_marked((#[trigger] mask_rows@[c])@, seq_len as nat),
        decreases mask_rows@.len() - b,
    {
        let row: &Vec<i64> = &mask_rows[b];
        if row.len() < seq_len {
            assert(!row_marked(mask_rows@[b as int]@, seq_len as nat));
            return false;
        }
        let mut i: usize = 0;
        while i < seq_len
            invariant
                b < mask_rows@.len(),
                i <= seq_len <= row@.len(),
                row@ == mask_rows@[b as int]@,
                forall|k: int| 0 <= k < i ==> row@[k] != 0,
            decreases seq_len - i,
        {
            if row[i] == 0 {
                assert(!row_marked(mask_rows@[b as int]@, seq_len as nat));
                return false;
            }
            i = i + 1;
        }
        b = b + 1;
    }
    true
}

/// The mask over the first `seq_len` slots of every row, rows end to end.
pub fn attention_mask_tensor(mask_rows: &[Vec<i64>], seq_len: usize) -> (r: Vec<i64>)
    ensures
        r@ == flattened(
            Seq::new(mask_rows@.len(), |b: int| mask_prefix(mask_rows@[b]@, seq_len as nat)),
        ),
{
    let ghost rows = Seq::new(
        mask_rows@.len(),
        |b: int| mask_prefix(mask_rows@[b]@, seq_len as nat),
    );
    let mut values: Vec<i64> = Vec::new();
    let mut b: usize = 0;
    assert(rows.take(0) =~= Seq::empty());
    while b < mask_rows.len()
        invariant
            b <= mask_rows@.len(),
            rows == Seq::new(
                mask_rows@.len(),
                |b: int| mask_prefix(mask_rows@[b]@, seq_len as nat),
            ),
            values@ == flattened(rows.take(b as int)),
        decreases mask_rows@.len() - b,
    {
        let ghost before = values@;
        let row: &Vec<i64> = &mask_rows[b];
        let mut i: usize = 0;
        while i < seq_len
            invariant
                b < mask_rows@.len(),
                i <= seq_len,
                row@ == mask_rows@[b as int]@,
                values@ == before + mask_prefix(row@, i as nat),
            decreases seq_len - i,
        {
            if i < row.len() {
                values.push(row[i]);
            } else {
                values.push(0);
            }
            i = i + 1;
            assert(values@ =~= before + mask_prefix(row@, i as nat));
        }
        assert(values@ =~= before + rows[b as int]);
        assert(rows.take(b as int + 1).drop_last() =~= rows.take(b as int));
        b = b + 1;
    }
    assert(rows.take(b as int) =~= rows);
    values
}

/// The mask over the first `seq_len` slots; `None` where all of them are marked.
pub fn attention_mask_tensor_or_none(mask_rows: &[Vec<i64>], seq_len: usize) -> (r: Option<
    Vec<i64>,
>)
    ensures
        match r {
            Some(values) => !all_marked(mask_rows@, seq_len as nat) && values@ == flattened(
                Seq::new(mask_rows@.len(), |b: int| mask_prefix(mask_rows@[b]@, seq_len as nat)),
            ),
            None => all_marked(mask_rows@, seq_len as nat),
        },
{
    if attention_mask_rows_are_all_valid(mask_rows, seq_len) {
        None
    } else {
        Some(attention_mask_tensor(mask_rows, seq_len))
    }
}

/// The row holds `first`, `first + 1`, ... in its slots `start..start + len`.
pub open spec fn counts_up(row: Seq<i64>, start: int, len: int, first: int) -> bool {
    row.len() >= start + len && forall|i: int| 0 <= i < len ==> #[trigger] row[start + i] == first + i
}

/// The position in slot `start` of the first row, zero where that row is too short.
pub open spec fn first_position(position_rows: Seq<Vec<i64>>, start: int) -> i64 {
    if start < position_rows[0]@.len() {
        position_rows[0]@[start]
    } else {
        0
    }
}

/// There are rows, and all of them count up from one position through the slots
/// `start..start + len`.
pub open spec fn contiguous_rows(position_rows: Seq<Vec<i64>>, start: int, len: int) -> bool {
    position_rows.len() > 0 && forall|b: int|
        0 <= b < position_rows.len() ==> counts_up(
            (#[trigger] position_rows[b])@,
            start,
            len,
            first_position(position_rows, start) as int,
        )
}

/// The first position where all rows count up from one position through the slots
/// `start..start + len`.
pub fn contiguous_position_start(position_rows: &[Vec<i64>], start: usize, len: usize) -> (r: Option<
    i64,
>)
    requires
        start + len <= usize::MAX,
    ensures
        r == if contiguous_rows(position_rows@, start as int, len as int) {
            Some(first_position(position_rows@, start as int))
        } else {
            None
        },
{
    if position_rows.len() == 0 {
        return None;
    }
    let first: i64 = if start < position_rows[0].len() {
        position_rows[0][start]
    } else {
        0
    };
    let mut b: usize = 0;
    while b < position_rows.len()
        invariant
            b <= position_rows@.len(),
            position_rows@.len() > 0,
            start + len <= usize::MAX,
            first == first_position(position_rows@, start as int),
            forall|c: int|
                0 <= c < b ==> counts_up(
                    (#[trigger] position_rows@[c])@,
                    start as int,
                    len as int,
                    first as int,
                ),
        decreases position_rows@.len() - b,
    {
        let row: &Vec<i64> = &position_rows[b];
        if row.len() < start + len {
            assert(!counts_up(position_rows@[b as int]@, start as int, len as int, first as int));
            return None;
        }
        let mut i: usize = 0;
        while i < len
            invariant
                b < position_rows@.len(),
                position_rows@.len() > 0,
                row@ == position_rows@[b as int]@,
                i <= len,
                start + len <= row@.len(),
                start + len <= usize::MAX,
                first == first_position(position_rows@, start as int),
                forall|k: int| 0 <= k < i ==> #[trigger] row@[start + k] == first + k,
            decreases len - i,
        {
            if row[start + i] as i128 != first as i128 + i as i128 {
                assert(row@[start + i as int] != first + i);
                assert(!counts_up(
                    position_rows@[b as int]@,
                    start as int,
                    len as int,
                    first as int,
                ));
                return None;
            }
            i = i + 1;
        }
        b = b + 1;
    }
    Some(first)
}

/// The row holds `len` slots from `start` on, equal to `slice`.
pub open spec fn holds_slice(row: Seq<i64>, start: int, len: int, slice: Seq<i64>) -> bool {
    row.len() >= start + len && row.subrange(start, start + len) == slice
}

/// There are rows, and all of them hold the same in the slots `start..start + len`.
pub open spec fn identical_rows(position_rows: Seq<Vec<i64>>, start: int, len: int) -> bool {
    position_rows.len() > 0 && forall|b: int|
        0 <= b < position_rows.len() ==> holds_slice(
            (#[trigger] position_rows[b])@,
            start,
            len,
            position_rows[0]@.subrange(start, start + len),
        )
}

/// The slots `start..start + len` of the first row where all rows agree on them.
pub fn identical_position_slice(position_rows: &[Vec<i64>], start: usize, len: usize) -> (r: Option<
    Vec<i64>,
>)
    requires
        start + len <= usize::MAX,
    ensures
        match r {
            Some(slice) => identical_rows(position_rows@, start as int, len as int) && slice@
                == position_rows@[0]@.subrange(start as int, start + len),
            None => !identical_rows(position_rows@, start as int, len as int),
        },
{
    if position_rows.len() == 0 {
        return None;
    }
    let first: &Vec<i64> = &position_rows[0];
    if first.len() < start + len {
        return None;
    }
    let mut slice: Vec<i64> = Vec::new();
    let mut i: usize = 0;
    while i < len
        invariant
            i <= len,
            start + len <= first@.len(),
            start + len <= usize::MAX,
            slice@ == first@.subrange(start as int, start + i),
        decreases len - i,
    {
        slice.push(first[start + i]);
        i = i + 1;
        assert(slice@ =~= first@.subrange(start as int, start + i));
    }
    let mut b: usize = 0;
    while b < position_rows.len()
        invariant
            b <= position_rows@.len(),
            position_rows@.len() > 0,
            start + len <= usize::MAX,
            slice@.len() == len,
            slice@ == position_rows@[0]@.subrange(start as int, start + len),
            forall|c: int|
                0 <= c < b ==> holds_slice(
                    (#[trigger] position_rows@[c])@,
                    start as int,
                    len as int,
                    slice@,
                ),
        decreases position_rows@.len() - b,
    {
        let row: &Vec<i64> = &position_rows[b];
        if row.len() < start + len {
            assert(!holds_slice(position_rows@[b as int]@, start as int, len as int, slice@));
            return None;
        }
        let mut i: usize = 0;
        while i < len
            invariant
                b < position_rows@.len(),
                row@ == position_rows@[b as int]@,
                i <= len,
                start + len <= row@.len(),
                start + len <= usize::MAX,
                slice@.len() == len,
                slice@ == position_rows@[0]@.subrange(start as int, start + len),
                forall|k: int| 0 <= k < i ==> #[trigger] row@[start + k] == slice@[k],
            decreases len - i,
        {
            if row[start + i] != slice[i] {
                assert(row@.subrange(start as int, start + len)[i as int] != slice@[i as int]);
                assert(!holds_slice(position_rows@[b as int]@, start as int, len as int, slice@));
                return None;
            }
            i = i + 1;
        }
        assert(row@.subrange(start as int, start + len) =~= slice@) by {
            assert forall|k: int| 0 <= k < len implies row@.subrange(
                start as int,
                start + len,
            )[k] == slice@[k] by {
                assert(row@[start + k] == slice@[k]);
            }
        }
        b = b + 1;
    }
    Some(slice)
}

/// The entries of a row from `start` on, at most `len`.
pub open spec fn row_slice(row: Seq<i64>, start: int, len: int) -> Seq<i64> {
    let from = min_int(start, row.len() as int);
    let to = min_int(start + len, row.len() as int);
    row.subrange(from, to)
}

/// The slots `start..start + len` of every row, rows end to end.
pub fn position_ids_slice_tensor(position_rows: &[Vec<i64>], start: usize, len: usize) -> (r: Vec<
    i64,
>)
    ensures
        r@ == flattened(
            Seq::new(
                position_rows@.len(),
                |b: int| row_slice(position_rows@[b]@, start as int, len as int),
            ),
        ),
{
    let ghost rows = Seq::new(
        position_rows@.len(),
        |b: int| row_slice(position_rows@[b]@, start as int, len as int),
    );
    let mut values: Vec<i64> = Vec::new();
    let mut b: usize = 0;
    assert(rows.take(0) =~= Seq::empty());
    while b < position_rows.len()
        invariant
            b <= position_rows@.len(),
            rows == Seq::new(
                position_rows@.len(),
                |b: int| row_slice(position_rows@[b]@, start as int, len as int),
            ),
            values@ == flattened(rows.take(b as int)),
        decreases position_rows@.len() - b,
    {
        let ghost before = values@;
        let row: &Vec<i64> = &position_rows[b];
        let from: usize = min_usize(start, row.len());
        let mut i: usize = from;
        assert(before =~= before + row@.subrange(from as int, from as int));
        while i < row.len() && i - from < len
            invariant
                b < position_rows@.len(),
                row@ == position_rows@[b as int]@,
                from == min_int(start as int, row@.len() as int),
                from <= i <= row@.len(),
                i - from <= len,
                values@ == before + row@.subrange(from as int, i as int),
            decreases row@.len() - i,
        {
            values.push(row[i]);
            i = i + 1;
            assert(values@ =~= before + row@.subrange(from as int, i as int));
        }
        assert(row@.subrange(from as int, i as int) =~= rows[b as int]);
        assert(rows.take(b as int + 1).drop_last() =~= rows.take(b as int));
        b = b + 1;
    }
    assert(rows.take(b as int) =~= rows);
    values
}

/// How position ids are handed to a device: as a range or a row shared by the batch, or in full.
#[derive(Clone, Debug)]
pub enum PositionIds {
    /// Every row counts up from the first position.
    Contiguous { first: i64, len: usize },
    /// Every row is this one.
    Shared { row: Vec<i64> },
    /// All rows end to end.
    PerRow { values: Vec<i64> },
}

impl PositionIds {
    /// One row of positions, where the batch shares it.
    pub open spec fn shared_row(self) -> Option<Seq<i64>> {
        match self {
            PositionIds::Contiguous { first, len } => Some(
                Seq::new(len as nat, |i: int| (first + i) as i64),
            ),
            PositionIds::Shared { row } => Some(row@),
            PositionIds::PerRow { values } => None,
        }
    }

    /// All rows end to end.
    pub open spec fn values(self, batch: nat) -> Seq<i64> {
        match self {
            PositionIds::PerRow { values } => values@,
            _ => flattened(Seq::new(batch, |b: int| self.shared_row()->0)),
        }
    }

    /// All rows end to end, for a batch of the given size.
    pub fn expand(&self, batch: usize) -> (r: Vec<i64>)
        requires
            *self matches PositionIds::Contiguous { first, len } ==> first + len <= i64::MAX,
        ensures
            r@ == self.values(batch as nat),
    {
        let mut row: Vec<i64> = Vec::new();
        match self {
            PositionIds::PerRow { values } => {
                let mut copy: Vec<i64> = Vec::new();
                let mut i: usize = 0;
                while i < values.len()
                    invariant
                        i <= values@.len(),
                        copy@ == values@.take(i as int),
                    decreases values@.len() - i,
                {
                    copy.push(values[i]);
                    i = i + 1;
                    assert(copy@ =~= values@.take(i as int));
                }
                assert(values@.take(i as int) =~= values@);
                return copy;
            },
            PositionIds::Shared { row: shared } => {
                let mut i: usize = 0;
                while i < shared.len()
                    invariant
                        i <= shared@.len(),
                        row@ == shared@.take(i as int),
                    decreases shared@.len() - i,
                {
                    row.push(shared[i]);
                    i = i + 1;
                    assert(row@ =~= shared@.take(i as int));
                }
                assert(shared@.take(i as int) =~= shared@);
            },
            PositionIds::Contiguous { first, len } => {
                let mut i: usize = 0;
                while i < *len
                    invariant
                        i <= *len,
                        *first + *len <= i64::MAX,
                        row@ == Seq::new(i as nat, |k: int| (*first + k) as i64),
                    decreases *len - i,
                {
                    row.push((*first as i128 + i as i128) as i64);
                    i = i + 1;
                    assert(row@ =~= Seq::new(i as nat, |k: int| (*first + k) as i64));
                }
            },
        }
        let ghost rows = Seq::new(batch as nat, |b: int| self.shared_row()->0);
        let mut values: Vec<i64> = Vec::new();
        let mut b: usize = 0;
        assert(rows.take(0) =~= Seq::empty());
        assert(row@ == self.shared_row()->0);
        while b < batch
            invariant
                b <= batch,
                rows == Seq::new(batch as nat, |b: int| self.shared_row()->0),
                row@ == self.shared_row()->0,
                values@ == flattened(rows.take(b as int)),
            decreases batch - b,
        {
            let ghost before = values@;
            let mut i: usize = 0;
            while i < row.len()
                invariant
                    i <= row@.len(),
                    values@ == before + row@.take(i as int),
                decreases row@.len() - i,
            {
                values.push(row[i]);
                i = i + 1;
                assert(values@ =~= before + row@.take(i as int));
            }
            assert(row@.take(i as int) =~= row@);
            assert(rows.take(b as int + 1).drop_last() =~= rows.take(b as int));
            b = b + 1;
        }
        assert(rows.take(b as int) =~= rows);
        values
    }
}

/// The positions in the slots `start..start + len`, in the cheapest form to hand over.
pub fn position_ids_slice_tensor_optimized(
    position_rows: &[Vec<i64>],
    start: usize,
    len: usize,
) -> (r: PositionIds)
    requires
        start + len <= usize::MAX,
    ensures
        r.values(position_rows@.len()) == flattened(
            Seq::new(
                position_rows@.len(),
                |b: int| row_slice(position_rows@[b]@, start as int, len as int),
            ),
        ),
        match r {
            PositionIds::Contiguous { first, len: n } => {
                &&& contiguous_rows(position_rows@, start as int, len as int)
                &&& first == first_position(position_rows@, start as int)
                &&& n == len
            },
            PositionIds::Shared { row } => {
                &&& !contiguous_rows(position_rows@, start as int, len as int)
                &&& identical_rows(position_rows@, start as int, len as int)
            },
            PositionIds::PerRow { values } => {
                &&& !contiguous_rows(position_rows@, start as int, len as int)
                &&& !identical_rows(position_rows@, start as int, len as int)
            },
        },
{
    let ghost direct = Seq::new(
        position_rows@.len(),
        |b: int| row_slice(position_rows@[b]@, start as int, len as int),
    );
    if let Some(first) = contiguous_position_start(position_rows, start, len) {
        let r: PositionIds = PositionIds::Contiguous { first, len };
        proof {
            assert forall|b: int| 0 <= b < position_rows@.len() implies #[trigger] direct[b]
                == r.shared_row()->0 by {
                let row = position_rows@[b]@;
                assert(counts_up(row, start as int, len as int, first as int));
                assert forall|i: int| 0 <= i < len implies direct[b][i] == r.shared_row()->0[i] by {
                    assert(row[start + i] == first + i);
                }
                assert(direct[b] =~= r.shared_row()->0);
            }
            assert(direct =~= Seq::new(position_rows@.len(), |b: int| r.shared_row()->0));
        }
        return r;
    }
    if let Some(row) = identical_position_slice(position_rows, start, len) {
        let r: PositionIds = PositionIds::Shared { row };
        proof {
            assert forall|b: int| 0 <= b < position_rows@.len() implies #[trigger] direct[b]
                == r.shared_row()->0 by {
                let full = position_rows@[b]@;
                assert(holds_slice(full, start as int, len as int, row@));
                assert(direct[b] =~= full.subrange(start as int, start + len));
            }
            assert(direct =~= Seq::new(position_rows@.len(), |b: int| r.shared_row()->0));
        }
        return r;
    }
    PositionIds::PerRow { values: position_ids_slice_tensor(position_rows, start, len) }
}

/// The last positions of a row, at most `chunk`; a single zero where the row is empty.
pub open spec fn row_tail(row: Seq<i64>, chunk: nat) -> Seq<i64> {
    if row.len() == 0 {
        seq![0i64]
    } else {
        row.subrange(max_int(row.len() - chunk, 0), row.len() as int)
    }
}

/// The positions that generated slots borrow: the tail of each row, one decoding step long.
pub fn generation_tail_positions(
    position_rows: &[Vec<i64>],
    num_multi_token_pred: usize,
) -> (r: Vec<Vec<i64>>)
    ensures
        r@.len() == position_rows@.len(),
        forall|b: int|
            0 <= b < r@.len() ==> (#[trigger] r@[b])@ == row_tail(
                position_rows@[b]@,
                max_int(num_multi_token_pred as int, 1) as nat,
            ),
        forall|b: int| 0 <= b < r@.len() ==> (#[trigger] r@[b])@.len() > 0,
{
    let chunk: usize = max_usize(num_multi_token_pred, 1);
    let mut tails: Vec<Vec<i64>> = Vec::new();
    let mut b: usize = 0;
    while b < position_rows.len()
        invariant
            b <= position_rows@.len(),
            chunk == max_int(num_multi_token_pred as int, 1),
            tails@.len() == b,
            forall|c: int|
                0 <= c < b ==> (#[trigger] tails@[c])@ == row_tail(
                    position_rows@[c]@,
                    chunk as nat,
                ),
            forall|c: int| 0 <= c < b ==> (#[trigger] tails@[c])@.len() > 0,
        decreases position_rows@.len() - b,
    {
        let row: &Vec<i64> = &position_rows[b];
        let mut tail: Vec<i64> = Vec::new();
        if row.len() == 0 {
            tail.push(0);
            assert(tail@ =~= seq![0i64]);
        } else {
            let from: usize = row.len().saturating_sub(chunk);
            let mut i: usize = from;
            while i < row.len()
                invariant
                    from <= i <= row@.len(),
                    tail@ == row@.subrange(from as int, i as int),
                decreases row@.len() - i,
            {
                tail.push(row[i]);
                i = i + 1;
                assert(tail@ =~= row@.subrange(from as int, i as int));
            }
        }
        tails.push(tail);
        b = b + 1;
    }
    tails
}

/// Slot `idx` is pending and masked over.
pub open spec fn is_pending(pending: Seq<usize>, idx: int, mask_len: nat) -> bool {
    idx < mask_len && exists|i: int| 0 <= i < pending.len() && #[trigger] pending[i] == idx
}

/// The position of slot `idx`: one less than the marked slots up to it, shifted by `offset`.
pub open spec fn own_position(mask: Seq<i64>, idx: int, offset: int) -> i64 {
    cut_i64(cut_i64(offset + valid_count(mask, (idx + 1) as nat)) - 1)
}

/// A row of positions in which the pending slots have their own positions.
pub open spec fn committed_row(
    mask: Seq<i64>,
    positions: Seq<i64>,
    pending: Seq<usize>,
    offset: int,
) -> Seq<i64> {
    Seq::new(
        positions.len(),
        |idx: int|
            if is_pending(pending, idx, mask.len()) {
                own_position(mask, idx, offset)
            } else {
                positions[idx]
            },
    )
}

fn contains_index(indices: &Vec<usize>, idx: usize) -> (r: bool)
    ensures
        r == exists|i: int| 0 <= i < indices@.len() && #[trigger] indices@[i] == idx,
{
    let mut i: usize = 0;
    while i < indices.len()
        invariant
            i <= indices@.len(),
            forall|k: int| 0 <= k < i ==> #[trigger] indices@[k] != idx,
        decreases indices@.len() - i,
    {
        if indices[i] == idx {
            return true;
        }
        i = i + 1;
    }
    false
}

/// Gives the pending slots of one row their own positions.
fn commit_row(mask: &Vec<i64>, positions: &mut Vec<i64>, pending: &Vec<usize>, offset: i64)
    ensures
        final(positions)@ == committed_row(mask@, old(positions)@, pending@, offset as int),
{
    let ghost given = positions@;
    if pending.len() == 0 {
        assert(positions@ =~= committed_row(mask@, given, pending@, offset as int));
        return;
    }
    let mut count: i64 = offset;
    let mut idx: usize = 0;
    while idx < mask.len()
        invariant
            idx <= mask@.len(),
            positions@.len() == given.len(),
            count == cut_i64(offset + valid_count(mask@, idx as nat)),
            forall|k: int|
                0 <= k < given.len() ==> #[trigger] positions@[k] == if k < idx {
                    committed_row(mask@, given, pending@, offset as int)[k]
                } else {
                    given[k]
                },
        decreases mask@.len() - idx,
    {
        if mask[idx] != 0 {
            count = if count < i64::MAX {
                count + 1
            } else {
                count
            };
        }
        if contains_index(pending, idx) && idx < positions.len() {
            let position: i64 = if count > i64::MIN {
                count - 1
            } else {
                count
            };
            positions.set(idx, position);
        }
        idx = idx + 1;
    }
    assert(positions@ =~= committed_row(mask@, given, pending@, offset as int));
}

/// The rows that three lists have in common.
pub open spec fn common_rows(a: nat, b: nat, c: nat) -> int {
    min_int(min_int(a as int, b as int), c as int)
}

/// Gives the pending slots of every row their own positions.
pub fn commit_pending_position_ids(
    mask_rows: &[Vec<i64>],
    position_rows: &mut Vec<Vec<i64>>,
    pending_rows: &[Vec<usize>],
)
    ensures
        final(position_rows)@.len() == old(position_rows)@.len(),
        forall|b: int|
            0 <= b < old(position_rows)@.len() ==> (#[trigger] final(position_rows)@[b])@ == if b
                < common_rows(
                mask_rows@.len(),
                old(position_rows)@.len(),
                pending_rows@.len(),
            ) {
                committed_row(mask_rows@[b]@, old(position_rows)@[b]@, pending_rows@[b]@, 0)
            } else {
                old(position_rows)@[b]@
            },
{
    let ghost given = position_rows@;
    let rows: usize = min_usize(
        min_usize(mask_rows.len(), position_rows.len()),
        pending_rows.len(),
    );
    let mut b: usize = 0;
    while b < rows
        invariant
            b <= rows,
            rows == common_rows(mask_rows@.len(), given.len(), pending_rows@.len()),
            position_rows@.len() == given.len(),
            forall|c: int|
                0 <= c < given.len() ==> (#[trigger] position_rows@[c])@ == if c < b {
                    committed_row(mask_rows@[c]@, given[c]@, pending_rows@[c]@, 0)
                } else {
                    given[c]@
                },
        decreases rows - b,
    {
        commit_row(&mask_rows[b], &mut position_rows[b], &pending_rows[b], 0);
        b = b + 1;
    }
}

/// Gives the pending slots of every row their own positions, counted from the row's offset.
pub fn commit_pending_position_ids_with_offsets(
    mask_rows: &[Vec<i64>],
    position_rows: &mut Vec<Vec<i64>>,
    pending_rows: &[Vec<usize>],
    position_offsets: &[i64],
)
    ensures
        final(position_rows)@.len() == old(position_rows)@.len(),
        forall|b: int|
            0 <= b < old(position_rows)@.len() ==> (#[trigger] final(position_rows)@[b])@ == if b
                < common_rows(
                mask_rows@.len(),
                old(position_rows)@.len(),
                pending_rows@.len(),
            ) && b < position_offsets@.len() {
                committed_row(
                    mask_rows@[b]@,
                    old(position_rows)@[b]@,
                    pending_rows@[b]@,
                    position_offsets@[b] as int,
                )
            } else {
                old(position_rows)@[b]@
            },
{
    let ghost given = position_rows@;
    let rows: usize = min_usize(
        min_usize(min_usize(mask_rows.len(), position_rows.len()), pending_rows.len()),
        position_offsets.len(),
    );
    let mut b: usize = 0;
    while b < rows
        invariant
            b <= rows,
            rows == min_int(
                common_rows(mask_rows@.len(), given.len(), pending_rows@.len()),
                position_offsets@.len() as int,
            ),
            position_rows@.len() == given.len(),
            forall|c: int|
                0 <= c < given.len() ==> (#[trigger] position_rows@[c])@ == if c < b {
                    committed_row(
                        mask_rows@[c]@,
                        given[c]@,
                        pending_rows@[c]@,
                        position_offsets@[c] as int,
                    )
                } else {
                    given[c]@
                },
        decreases rows - b,
    {
        commit_row(
            &mask_rows[b],
            &mut position_rows[b],
            &pending_rows[b],
            position_offsets[b],
        );
        b = b + 1;
    }
}

/// The position that the next marked slot of a row takes.
pub fn next_valid_position_with_offset(mask_row: &[i64], position_offset: i64) -> (r: i64)
    ensures
        r == cut_i64(position_offset + valid_count(mask_row@, mask_row@.len())),
{
    let mut count: i64 = position_offset;
    let mut idx: usize = 0;
    while idx < mask_row.len()
        invariant
            idx <= mask_row@.len(),
            count == cut_i64(position_offset + valid_count(mask_row@, idx as nat)),
        decreases mask_row@.len() - idx,
    {
        if mask_row[idx] != 0 && count < i64::MAX {
            count = count + 1;
        }
        idx = idx + 1;
    }
    count
}

/// The position that generated slot `i` of a step borrows from a row's tail; the step's own index
/// where there is no tail.
pub open spec fn borrowed_position(tails: Seq<Vec<i64>>, b: int, i: int) -> i64 {
    if 0 <= b < tails.len() && tails[b]@.len() > 0 {
        tails[b]@[i % (tails[b]@.len() as int)]
    } else {
        i as i64
    }
}

/// The slots `from..from + n`.
pub open spec fn slot_range(from: nat, n: nat) -> Seq<usize> {
    Seq::new(n, |i: int| (from + i) as usize)
}

/// Appends marked slots with borrowed positions to one row and returns their indices.
pub(crate) fn append_row_slots(
    mask: &mut Vec<i64>,
    positions: &mut Vec<i64>,
    tails: &[Vec<i64>],
    b: usize,
    new_tokens: usize,
) -> (r: Vec<usize>)
    ensures
        final(mask)@ == old(mask)@ + Seq::new(new_tokens as nat, |i: int| 1i64),
        final(positions)@ == old(positions)@ + Seq::new(
            new_tokens as nat,
            |i: int| borrowed_position(tails@, b as int, i),
        ),
        r@ == slot_range(old(mask)@.len(), new_tokens as nat),
{
    let ghost mask0 = mask@;
    let ghost positions0 = positions@;
    let mut indices: Vec<usize> = Vec::new();
    let mut i: usize = 0;
    while i < new_tokens
        invariant
            i <= new_tokens,
            mask@ == mask0 + Seq::new(i as nat, |k: int| 1i64),
            positions@ == positions0 + Seq::new(
                i as nat,
                |k: int| borrowed_position(tails@, b as int, k),
            ),
            indices@ == slot_range(mask0.len(), i as nat),
        decreases new_tokens - i,
    {
        indices.push(mask.len());
        mask.push(1);
        let position: i64 = if b < tails.len() && tails[b].len() > 0 {
            tails[b][i % tails[b].len()]
        } else {
            i as i64
        };
        positions.push(position);
        i = i + 1;
        assert(mask@ =~= mask0 + Seq::new(i as nat, |k: int| 1i64));
        assert(positions@ =~= positions0 + Seq::new(
            i as nat,
            |k: int| borrowed_position(tails@, b as int, k),
        ));
        assert(indices@ =~= slot_range(mask0.len(), i as nat));
    }
    assert(mask@ =~= mask0 + Seq::new(new_tokens as nat, |i: int| 1i64));
    assert(positions@ =~= positions0 + Seq::new(
        new_tokens as nat,
        |i: int| borrowed_position(tails@, b as int, i),
    ));
    indices
}

/// Appends `new_tokens` marked slots with borrowed positions to every row, and returns the indices
/// of the new slots.
pub fn append_generated_position_slots(
    mask_rows: &mut Vec<Vec<i64>>,
    position_rows: &mut Vec<Vec<i64>>,
    generation_tail_positions: &[Vec<i64>],
    new_tokens: usize,
) -> (r: Vec<Vec<usize>>)
    requires
        old(position_rows)@.len() >= old(mask_rows)@.len(),
    ensures
        final(mask_rows)@.len() == old(mask_rows)@.len(),
        final(position_rows)@.len() == old(position_rows)@.len(),
        r@.len() == old(mask_rows)@.len(),
        forall|b: int|
            0 <= b < old(mask_rows)@.len() ==> (#[trigger] final(mask_rows)@[b])@ == old(
                mask_rows
            )@[b]@ + Seq::new(new_tokens as nat, |i: int| 1i64),
        forall|b: int|
            0 <= b < old(position_rows)@.len() ==> (#[trigger] final(position_rows)@[b])@ == if b
                < old(mask_rows)@.len() {
                old(position_rows)@[b]@ + Seq::new(
                    new_tokens as nat,
                    |i: int| borrowed_position(generation_tail_positions@, b, i),
                )
            } else {
                old(position_rows)@[b]@
            },
        forall|b: int|
            0 <= b < r@.len() ==> (#[trigger] r@[b])@ == slot_range(
                old(mask_rows)@[b]@.len(),
                new_tokens as nat,
            ),
{
    let ghost mask0 = mask_rows@;
    let ghost positions0 = position_rows@;
    let rows: usize = mask_rows.len();
    let mut generated: Vec<Vec<usize>> = Vec::new();
    let mut b: usize = 0;
    while b < rows
        invariant
            b <= rows,
            rows == mask0.len(),
            positions0.len() >= rows,
            mask_rows@.len() == rows,
            position_rows@.len() == positions0.len(),
            generated@.len() == b,
            forall|c: int|
                0 <= c < rows ==> (#[trigger] mask_rows@[c])@ == if c < b {
                    mask0[c]@ + Seq::new(new_tokens as nat, |i: int| 1i64)
                } else {
                    mask0[c]@
                },
            forall|c: int|
                0 <= c < positions0.len() ==> (#[trigger] position_rows@[c])@ == if c < b {
                    positions0[c]@ + Seq::new(
                        new_tokens as nat,
                        |i: int| borrowed_position(generation_tail_positions@, c, i),
                    )
                } else {
                    positions0[c]@
                },
            forall|c: int|
                0 <= c < b ==> (#[trigger] generated@[c])@ == slot_range(
                    mask0[c]@.len(),
                    new_tokens as nat,
                ),
        decreases rows - b,
    {
        assert(mask_rows@[b as int]@ == mask0[b as int]@);
        let indices: Vec<usize> = append_row_slots(
            &mut mask_rows[b],
            &mut position_rows[b],
            generation_tail_positions,
            b,
            new_tokens,
        );
        generated.push(indices);
        b = b + 1;
    }
    generated
}

/// The entries of `indices` below `bound`.
pub open spec fn entries_below(indices: Seq<usize>, bound: int) -> Seq<usize>
    decreases indices.len(),
{
    if indices.len() == 0 {
        Seq::empty()
    } else {
        let kept = entries_below(indices.drop_last(), bound);
        if indices.last() < bound {
            kept.push(indices.last())
        } else {
            kept
        }
    }
}

fn keep_below(indices: &Vec<usize>, bound: usize) -> (r: Vec<usize>)
    ensures
        r@ == entries_below(indices@, bound as int),
{
    let mut kept: Vec<usize> = Vec::new();
    let mut i: usize = 0;
    while i < indices.len()
        invariant
            i <= indices@.len(),
            kept@ == entries_below(indices@.take(i as int), bound as int),
        decreases indices@.len() - i,
    {
        assert(indices@.take(i as int + 1).drop_last() =~= indices@.take(i as int));
        if indices[i] < bound {
            kept.push(indices[i]);
        }
        i = i + 1;
    }
    assert(indices@.take(i as int) =~= indices@);
    kept
}

/// A sequence cut to at most `len` entries.
pub open spec fn cut_to<T>(s: Seq<T>, len: int) -> Seq<T> {
    if s.len() <= len {
        s
    } else {
        s.subrange(0, len)
    }
}

/// Takes the last `drop` slots off every row, and forgets the pending slots among them.
pub fn truncate_generation_rows(
    mask_rows: &mut Vec<Vec<i64>>,
    position_rows: &mut Vec<Vec<i64>>,
    pending_rows: &mut Vec<Vec<usize>>,
    drop: usize,
)
    ensures
        final(mask_rows)@.len() == old(mask_rows)@.len(),
        final(position_rows)@.len() == old(position_rows)@.len(),
        final(pending_rows)@.len() == old(pending_rows)@.len(),
        ({
            let rows = if drop == 0 {
                0
            } else {
                common_rows(
                    old(mask_rows)@.len(),
                    old(position_rows)@.len(),
                    old(pending_rows)@.len(),
                )
            };
            &&& forall|b: int|
                0 <= b < old(mask_rows)@.len() ==> (#[trigger] final(mask_rows)@[b])@ == if b
                    < rows {
                    cut_to(
                        old(mask_rows)@[b]@,
                        max_int(old(mask_rows)@[b]@.len() - drop, 0),
                    )
                } else {
                    old(mask_rows)@[b]@
                }
            &&& forall|b: int|
                0 <= b < old(position_rows)@.len() ==> (#[trigger] final(position_rows)@[b])@
                    == if b < rows {
                    cut_to(
                        old(position_rows)@[b]@,
                        max_int(old(mask_rows)@[b]@.len() - drop, 0),
                    )
                } else {
                    old(position_rows)@[b]@
                }
            &&& forall|b: int|
                0 <= b < old(pending_rows)@.len() ==> (#[trigger] final(pending_rows)@[b])@ == if b
                    < rows {
                    entries_below(
                        old(pending_rows)@[b]@,
                        max_int(old(mask_rows)@[b]@.len() - drop, 0),
                    )
                } else {
                    old(pending_rows)@[b]@
                }
        }),
{
    if drop == 0 {
        return;
    }
    let ghost mask0 = mask_rows@;
    let ghost positions0 = position_rows@;
    let ghost pending0 = pending_rows@;
    let rows: usize = min_usize(
        min_usize(mask_rows.len(), position_rows.len()),
        pending_rows.len(),
    );
    let mut b: usize = 0;
    while b < rows
        invariant
            b <= rows,
            rows == common_rows(mask0.len(), positions0.len(), pending0.len()),
            mask_rows@.len() == mask0.len(),
            position_rows@.len() == positions0.len(),
            pending_rows@.len() == pending0.len(),
            forall|c: int|
                0 <= c < mask0.len() ==> (#[trigger] mask_rows@[c])@ == if c < b {
                    cut_to(mask0[c]@, max_int(mask0[c]@.len() - drop, 0))
                } else {
                    mask0[c]@
                },
            forall|c: int|
                0 <= c < positions0.len() ==> (#[trigger] position_rows@[c])@ == if c < b {
                    cut_to(positions0[c]@, max_int(mask0[c]@.len() - drop, 0))
                } else {
                    positions0[c]@
                },
            forall|c: int|
                0 <= c < pending0.len() ==> (#[trigger] pending_rows@[c])@ == if c < b {
                    entries_below(pending0[c]@, max_int(mask0[c]@.len() - drop, 0))
                } else {
                    pending0[c]@
                },
        decreases rows - b,
    {
        assert(mask_rows@[b as int]@ == mask0[b as int]@);
        assert(position_rows@[b as int]@ == positions0[b as int]@);
        assert(pending_rows@[b as int]@ == pending0[b as int]@);
        let new_len: usize = mask_rows[b].len().saturating_sub(drop);
        mask_rows[b].truncate(new_len);
        position_rows[b].truncate(new_len);
        let kept: Vec<usize> = keep_below(&pending_rows[b], new_len);
        pending_rows.set(b, kept);
        b = b + 1;
    }
}

/// Positions count the marked slots: the first slot is at the offset where it is marked, and each
/// later slot is one further than the slot before it where it is marked, and no further where it is
/// not.
pub proof fn lemma_positions_count_marks(mask: Seq<i64>, offset: int, idx: int)
    requires
        0 <= idx < mask.len(),
        0 <= offset,
        offset + mask.len() <= i64::MAX,
    ensures
        idx == 0 && mask[0] != 0 ==> own_position(mask, 0, offset) == offset,
        idx > 0 && mask[idx] != 0 ==> own_position(mask, idx, offset) == own_position(
            mask,
            idx - 1,
            offset,
        ) + 1,
        idx > 0 && mask[idx] == 0 ==> own_position(mask, idx, offset) == own_position(
            mask,
            idx - 1,
            offset,
        ),
{
    lemma_valid_count_within(mask, idx as nat);
    lemma_valid_count_within(mask, (idx + 1) as nat);
    if idx == 0 {
        assert(valid_count(mask, 0) == 0);
    }
}

proof fn lemma_valid_count_within(mask: Seq<i64>, k: nat)
    ensures
        valid_count(mask, k) <= k,
    decreases k,
{
    if k > 0 {
        lemma_valid_count_within(mask, (k - 1) as nat);
    }
}

/// Giving the pending slots their own positions leaves all others where they are.
pub proof fn lemma_commit_moves_pending_only(
    mask: Seq<i64>,
    positions: Seq<i64>,
    pending: Seq<usize>,
    offset: int,
    idx: int,
)
    requires
        0 <= idx < positions.len() <= mask.len(),
        positions.len() <= usize::MAX,
    ensures
        committed_row(mask, positions, pending, offset).len() == positions.len(),
        committed_row(mask, positions, pending, offset)[idx] == if pending.contains(idx as usize) {
            own_position(mask, idx, offset)
        } else {
            positions[idx]
        },
{
    if pending.contains(idx as usize) {
        let i = choose|i: int| 0 <= i < pending.len() && pending[i] == idx as usize;
        assert(pending[i] == idx);
    }
    if is_pending(pending, idx, mask.len()) {
        let i = choose|i: int| 0 <= i < pending.len() && #[trigger] pending[i] == idx;
        assert(pending[i] == idx as usize);
    }
}

/// Rows of one length, end to end: an entry of a row lies behind all earlier rows.
pub proof fn lemma_flattened_at<T>(rows: Seq<Seq<T>>, len: nat, b: int, i: int)
    requires
        forall|c: int| 0 <= c < rows.len() ==> (#[trigger] rows[c]).len() == len,
        0 <= b < rows.len(),
        0 <= i < len,
    ensures
        flattened(rows).len() == rows.len() * len,
        0 <= b * len + i < flattened(rows).len(),
        flattened(rows)[b * len + i] == rows[b][i],
    decreases rows.len(),
{
    let m = rows.len() - 1;
    assert(m * len + len == rows.len() * len) by (nonlinear_arith)
        requires
            rows.len() == m + 1,
    ;
    assert(b * len >= 0 && (b < m ==> b * len + len <= m * len)) by (nonlinear_arith)
        requires
            0 <= b,
    ;
    lemma_flattened_len(rows.drop_last(), len);
    assert(rows.last().len() == len);
    if b < m {
        lemma_flattened_at(rows.drop_last(), len, b, i);
    }
}

pub(crate) proof fn lemma_flattened_len<T>(rows: Seq<Seq<T>>, len: nat)
    requires
        forall|c: int| 0 <= c < rows.len() ==> (#[trigger] rows[c]).len() == len,
    ensures
        flattened(rows).len() == rows.len() * len,
    decreases rows.len(),
{
    if rows.len() > 0 {
        lemma_flattened_len(rows.drop_last(), len);
        let m = rows.len() - 1;
        assert(rows.last().len() == len);
        assert(m * len + len == rows.len() * len) by (nonlinear_arith)
            requires
                rows.len() == m + 1,
        ;
    } else {
        assert(0 * len == 0) by (nonlinear_arith);
    }
}

/// The entries below a bound are those that are, all of them.
pub proof fn lemma_entries_below(indices: Seq<usize>, bound: int, idx: usize)
    ensures
        entries_below(indices, bound).contains(idx) <==> indices.contains(idx) && idx < bound,
    decreases indices.len(),
{
    if indices.len() > 0 {
        let (rest, last) = (indices.drop_last(), indices.last());
        lemma_entries_below(rest, bound, idx);
        let kept = entries_below(rest, bound);
        let all = entries_below(indices, bound);
        assert(indices =~= rest.push(last));
        if kept.contains(idx) {
            let j = choose|j: int| 0 <= j < kept.len() && kept[j] == idx;
            assert(all[j] == idx);
        }
        if rest.contains(idx) {
            let j = choose|j: int| 0 <= j < rest.len() && rest[j] == idx;
            assert(indices[j] == idx);
        }
        if last < bound {
            assert(all[kept.len() as int] == last);
        }
        assert(indices[indices.len() - 1] == last);
        if all.contains(idx) {
            let j = choose|j: int| 0 <= j < all.len() && all[j] == idx;
            if j < kept.len() {
                assert(kept[j] == idx);
            }
        }
        if indices.contains(idx) {
            let j = choose|j: int| 0 <= j < indices.len() && indices[j] == idx;
            if j < rest.len() {
                assert(rest[j] == idx);
            }
        }
    }
}

/// The slots of a step borrow the last positions of the sequence, in their order: as many as a step
/// has slots, where the sequence is that long.
pub proof fn lemma_borrowed_are_last(tails: Seq<Vec<i64>>, row: Seq<i64>, chunk: nat, b: int, i: int)
    requires
        0 <= b < tails.len(),
        tails[b]@ == row_tail(row, chunk),
        0 < chunk <= row.len(),
        0 <= i < chunk,
    ensures
        borrowed_position(tails, b, i) == row[row.len() - chunk + i],
{
    vstd::arithmetic::div_mod::lemma_small_mod(i as nat, chunk);
}

} // verus!
