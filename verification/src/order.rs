//! Ordering by rank, with items of equal rank kept in place.
use vstd::prelude::*;

verus! {

/// Items with a place in an order.
pub trait Ranked: Copy {
    spec fn rank(self) -> int;

    /// Whether this item comes strictly before the other.
    fn outranks(&self, other: &Self) -> (r: bool)
        ensures
            r == (self.rank() > other.rank()),
    ;
}

/// The items of a given rank, in their order.
pub open spec fn with_rank<T: Ranked>(items: Seq<T>, rank: int) -> Seq<T>
    decreases items.len(),
{
    if items.len() == 0 {
        Seq::empty()
    } else {
        let before = with_rank(items.drop_last(), rank);
        if items.last().rank() == rank {
            before.push(items.last())
        } else {
            before
        }
    }
}

/// Ranks never rise.
pub open spec fn descending<T: Ranked>(items: Seq<T>) -> bool {
    forall|i: int, j: int|
        0 <= i <= j < items.len() ==> items[i].rank()
            >= items[j].rank()
}

/// `sorted` holds `items` by falling rank, those of equal rank in their old order.
pub open spec fn is_ordered_form<T: Ranked>(sorted: Seq<T>, items: Seq<T>) -> bool {
    &&& descending(sorted)
    &&& forall|rank: int| #[trigger] with_rank(sorted, rank) == with_rank(items, rank)
}

/// `item` put behind the items of at least its rank.
pub open spec fn placed<T: Ranked>(sorted: Seq<T>, item: T) -> Seq<T>
    decreases sorted.len(),
{
    if sorted.len() == 0 || sorted.last().rank()
        >= item.rank() {
        sorted.push(item)
    } else {
        placed(sorted.drop_last(), item).push(sorted.last())
    }
}

/// The items by falling rank.
pub open spec fn by_rank<T: Ranked>(items: Seq<T>) -> Seq<T>
    decreases items.len(),
{
    if items.len() == 0 {
        Seq::empty()
    } else {
        placed(by_rank(items.drop_last()), items.last())
    }
}

proof fn lemma_with_rank_push<T: Ranked>(items: Seq<T>, item: T, rank: int)
    ensures
        with_rank(items.push(item), rank) == (if item.rank() == rank {
            with_rank(items, rank).push(item)
        } else {
            with_rank(items, rank)
        }),
{
    assert(items.push(item).drop_last() =~= items);
}

proof fn lemma_with_rank_join<T: Ranked>(a: Seq<T>, b: Seq<T>, rank: int)
    ensures
        with_rank(a + b, rank) == with_rank(a, rank) + with_rank(b, rank),
    decreases b.len(),
{
    if b.len() == 0 {
        assert(a + b =~= a);
        assert(with_rank(a, rank) + with_rank(b, rank) =~= with_rank(a, rank));
    } else {
        lemma_with_rank_join(a, b.drop_last(), rank);
        assert((a + b).drop_last() =~= a + b.drop_last());
        assert((a + b).last() == b.last());
        assert(with_rank(a, rank) + with_rank(b, rank) =~= with_rank(a + b, rank));
    }
}

/// A rank that does not occur has no items.
proof fn lemma_no_rank<T: Ranked>(items: Seq<T>, rank: int)
    requires
        forall|i: int|
            0 <= i < items.len() ==> (#[trigger] items[i]).rank() != rank,
    ensures
        with_rank(items, rank).len() == 0,
    decreases items.len(),
{
    if items.len() > 0 {
        let before = items.drop_last();
        assert forall|i: int| 0 <= i < before.len() implies (
        #[trigger] before[i]).rank() != rank by {
            assert(before[i] == items[i]);
        }
        lemma_no_rank(before, rank);
    }
}

/// A rank that occurs has an item.
proof fn lemma_has_rank<T: Ranked>(items: Seq<T>, i: int)
    requires
        0 <= i < items.len(),
    ensures
        with_rank(items, items[i].rank()).len() > 0,
    decreases items.len(),
{
    if i < items.len() - 1 {
        assert(items.drop_last()[i] == items[i]);
        lemma_has_rank(items.drop_last(), i);
    }
}

proof fn lemma_placed<T: Ranked>(sorted: Seq<T>, item: T, rank: int)
    requires
        descending(sorted),
    ensures
        descending(placed(sorted, item)),
        placed(sorted, item).len() == sorted.len() + 1,
        with_rank(placed(sorted, item), rank) == with_rank(sorted.push(item), rank),
        forall|i: int|
            0 <= i < placed(sorted, item).len() ==> (#[trigger] placed(
                sorted,
                item,
            )[i]).rank() >= item.rank() || (sorted.len() > 0
                && placed(sorted, item)[i].rank()
                >= sorted.last().rank()),
    decreases sorted.len(),
{
    lemma_with_rank_push(sorted, item, rank);
    if sorted.len() == 0 || sorted.last().rank()
        >= item.rank() {
    } else {
        let before = sorted.drop_last();
        let last = sorted.last();
        lemma_placed(before, item, rank);
        lemma_with_rank_push(before, item, rank);
        lemma_with_rank_push(placed(before, item), last, rank);
        let r = placed(before, item);
        assert forall|i: int| 0 <= i < r.len() implies (#[trigger] r[i]).rank()
            >= last.rank() by {
            if before.len() > 0 {
                assert(before.last() == sorted[before.len() - 1]);
            }
        }
        if last.rank() == rank {
            assert(item.rank() != rank);
        }
    }
}

/// `by_rank` orders its items.
pub proof fn lemma_by_rank<T: Ranked>(items: Seq<T>)
    ensures
        is_ordered_form(by_rank(items), items),
        by_rank(items).len() == items.len(),
    decreases items.len(),
{
    if items.len() > 0 {
        let before = items.drop_last();
        lemma_by_rank(before);
        let sorted = by_rank(before);
        lemma_placed(sorted, items.last(), 0);
        assert forall|rank: int| #[trigger] with_rank(by_rank(items), rank) == with_rank(
            items,
            rank,
        ) by {
            lemma_placed(sorted, items.last(), rank);
            lemma_with_rank_push(sorted, items.last(), rank);
            assert(with_rank(sorted, rank) == with_rank(before, rank));
        }
    }
}

/// There is only one way to order items by falling rank that keeps those of equal rank in place.
pub proof fn lemma_one_order<T: Ranked>(
    left: Seq<T>,
    right: Seq<T>,
    items: Seq<T>,
)
    requires
        is_ordered_form(left, items),
        is_ordered_form(right, items),
    ensures
        left == right,
{
    assert forall|rank: int| #[trigger] with_rank(left, rank) == with_rank(right, rank) by {
        assert(with_rank(left, rank) == with_rank(items, rank));
        assert(with_rank(right, rank) == with_rank(items, rank));
    }
    lemma_same_order(left, right);
}

proof fn lemma_same_order<T: Ranked>(left: Seq<T>, right: Seq<T>)
    requires
        descending(left),
        descending(right),
        forall|rank: int| #[trigger] with_rank(left, rank) == with_rank(right, rank),
    ensures
        left == right,
    decreases left.len() + right.len(),
{
    if left.len() == 0 {
        if right.len() > 0 {
            let rank = right[0].rank();
            lemma_has_rank(right, 0);
            assert(with_rank(left, rank) == with_rank(right, rank));
        }
        assert(left =~= right);
    } else {
        let k = left.last().rank();
        lemma_has_rank(left, left.len() - 1);
        assert(with_rank(left, k) == with_rank(right, k));
        if right.len() == 0 || right.last().rank() > k {
            assert forall|i: int| 0 <= i < right.len() implies (
            #[trigger] right[i]).rank() != k by {
                assert(right[i].rank() >= right[right.len()
                    - 1].rank());
            }
            lemma_no_rank(right, k);
        } else {
            let m = right.last().rank();
            if m < k {
                lemma_has_rank(right, right.len() - 1);
                assert(with_rank(left, m) == with_rank(right, m));
                assert forall|i: int| 0 <= i < left.len() implies (
                #[trigger] left[i]).rank() != m by {
                    assert(left[i].rank() >= left[left.len()
                        - 1].rank());
                }
                lemma_no_rank(left, m);
            } else {
                assert(with_rank(left, k).last() == left.last());
                assert(with_rank(right, k).last() == right.last());
                let a = left.drop_last();
                let b = right.drop_last();
                assert forall|rank: int| #[trigger] with_rank(a, rank) == with_rank(b, rank) by {
                    assert(with_rank(left, rank) == with_rank(right, rank));
                    if rank == k {
                        assert(with_rank(left, k).drop_last() =~= with_rank(a, k));
                        assert(with_rank(right, k).drop_last() =~= with_rank(b, k));
                    }
                }
                lemma_same_order(a, b);
                assert(left =~= a.push(left.last()));
                assert(right =~= b.push(right.last()));
            }
        }
    }
}

/// Merges two ordered lists; on equal ranks the left one comes first.
fn merge_items<T: Ranked>(left: &[T], right: &[T]) -> (r: Vec<T>)
    requires
        descending(left@),
        descending(right@),
    ensures
        is_ordered_form(r@, left@ + right@),
{
    let mut merged: Vec<T> = Vec::new();
    let mut i: usize = 0;
    let mut j: usize = 0;
    proof {
        assert forall|rank: int| #[trigger] with_rank(merged@, rank) == with_rank(
            left@.take(0),
            rank,
        ) + with_rank(right@.take(0), rank) by {
            assert(with_rank(merged@, rank) =~= with_rank(left@.take(0), rank) + with_rank(
                right@.take(0),
                rank,
            ));
        }
    }
    while i < left.len() || j < right.len()
        invariant
            i <= left@.len(),
            j <= right@.len(),
            descending(left@),
            descending(right@),
            descending(merged@),
            forall|rank: int| #[trigger]
                with_rank(merged@, rank) == with_rank(left@.take(i as int), rank) + with_rank(
                    right@.take(j as int),
                    rank,
                ),
            forall|a: int, b: int|
                0 <= a < merged@.len() && i <= b < left@.len() ==> (
                #[trigger] merged@[a]).rank() >= (
                #[trigger] left@[b]).rank(),
            forall|a: int, b: int|
                0 <= a < merged@.len() && j <= b < right@.len() ==> (
                #[trigger] merged@[a]).rank() >= (
                #[trigger] right@[b]).rank(),
            forall|a: int, b: int|
                0 <= a < j && i <= b < left@.len() ==> (
                #[trigger] right@[a]).rank() > (
                #[trigger] left@[b]).rank(),
        decreases left@.len() - i + right@.len() - j,
    {
        let ghost before = merged@;
        let from_right: bool = if i >= left.len() {
            true
        } else if j >= right.len() {
            false
        } else {
            right[j].outranks(&left[i])
        };
        if from_right {
            let item: T = right[j];
            merged.push(item);
            proof {
                assert(right@.take(j as int + 1) =~= right@.take(j as int).push(item));
                assert forall|rank: int| #[trigger] with_rank(merged@, rank) == with_rank(
                    left@.take(i as int),
                    rank,
                ) + with_rank(right@.take(j as int + 1), rank) by {
                    lemma_with_rank_push(before, item, rank);
                    lemma_with_rank_push(right@.take(j as int), item, rank);
                    assert(with_rank(before, rank) == with_rank(left@.take(i as int), rank)
                        + with_rank(right@.take(j as int), rank));
                    assert(with_rank(merged@, rank) =~= with_rank(left@.take(i as int), rank)
                        + with_rank(right@.take(j as int + 1), rank));
                }
            }
            j = j + 1;
        } else {
            let item: T = left[i];
            merged.push(item);
            proof {
                let taken = right@.take(j as int);
                assert(left@.take(i as int + 1) =~= left@.take(i as int).push(item));
                assert forall|a: int| 0 <= a < taken.len() implies (
                #[trigger] taken[a]).rank() != item.rank() by {
                    assert(taken[a] == right@[a]);
                    assert(right@[a].rank()
                        > left@[i as int].rank());
                }
                lemma_no_rank(taken, item.rank());
                assert forall|rank: int| #[trigger] with_rank(merged@, rank) == with_rank(
                    left@.take(i as int + 1),
                    rank,
                ) + with_rank(taken, rank) by {
                    lemma_with_rank_push(before, item, rank);
                    lemma_with_rank_push(left@.take(i as int), item, rank);
                    assert(with_rank(before, rank) == with_rank(left@.take(i as int), rank)
                        + with_rank(taken, rank));
                    assert(with_rank(merged@, rank) =~= with_rank(left@.take(i as int + 1), rank)
                        + with_rank(taken, rank));
                }
            }
            i = i + 1;
        }
    }
    proof {
        assert(left@.take(i as int) =~= left@);
        assert(right@.take(j as int) =~= right@);
        assert forall|rank: int| #[trigger] with_rank(merged@, rank) == with_rank(
            left@ + right@,
            rank,
        ) by {
            lemma_with_rank_join(left@, right@, rank);
        }
    }
    merged
}

/// The items by falling rank, those of equal rank in their old order.
pub fn sort_by_rank<T: Ranked>(items: &[T]) -> (r: Vec<T>)
    ensures
        r@ == by_rank(items@),
    decreases items@.len(),
{
    let n: usize = items.len();
    if n <= 1 {
        let mut sorted: Vec<T> = Vec::new();
        if n == 1 {
            sorted.push(items[0]);
        }
        proof {
            assert(sorted@ =~= items@);
            lemma_by_rank(items@);
            assert(is_ordered_form(items@, items@));
            lemma_one_order(by_rank(items@), items@, items@);
        }
        return sorted;
    }
    let half: usize = n / 2;
    let left: Vec<T> = sort_by_rank(
        vstd::slice::slice_subrange(items, 0, half),
    );
    let right: Vec<T> = sort_by_rank(
        vstd::slice::slice_subrange(items, half, n),
    );
    proof {
        lemma_by_rank(items@.subrange(0, half as int));
        lemma_by_rank(items@.subrange(half as int, n as int));
    }
    let merged: Vec<T> = merge_items(&left, &right);
    proof {
        let a = items@.subrange(0, half as int);
        let b = items@.subrange(half as int, n as int);
        assert(a + b =~= items@);
        assert forall|rank: int| #[trigger] with_rank(merged@, rank) == with_rank(
            items@,
            rank,
        ) by {
            lemma_with_rank_join(a, b, rank);
            lemma_with_rank_join(left@, right@, rank);
            assert(with_rank(left@, rank) == with_rank(a, rank));
            assert(with_rank(right@, rank) == with_rank(b, rank));
            assert(with_rank(merged@, rank) == with_rank(left@ + right@, rank));
        }
        lemma_by_rank(items@);
        lemma_one_order(merged@, by_rank(items@), items@);
    }
    merged
}

/// Ordering neither loses nor adds an item.
pub proof fn lemma_ordered_keeps<T: Ranked>(sorted: Seq<T>, items: Seq<T>, item: T)
    requires
        is_ordered_form(sorted, items),
    ensures
        sorted.contains(item) == items.contains(item),
{
    assert(with_rank(sorted, item.rank()) == with_rank(items, item.rank()));
    if items.contains(item) {
        lemma_rank_holds(items, item);
        lemma_rank_from(sorted, item.rank(), item);
    }
    if sorted.contains(item) {
        lemma_rank_holds(sorted, item);
        lemma_rank_from(items, item.rank(), item);
    }
}

proof fn lemma_rank_holds<T: Ranked>(items: Seq<T>, item: T)
    requires
        items.contains(item),
    ensures
        with_rank(items, item.rank()).contains(item),
    decreases items.len(),
{
    let j = choose|j: int| 0 <= j < items.len() && items[j] == item;
    let before = items.drop_last();
    let now = with_rank(items, item.rank());
    if j == items.len() - 1 {
        assert(now[now.len() - 1] == item);
    } else {
        assert(before[j] == item);
        lemma_rank_holds(before, item);
        let held = with_rank(before, item.rank());
        let k = choose|k: int| 0 <= k < held.len() && held[k] == item;
        assert(now[k] == item);
    }
}

proof fn lemma_rank_from<T: Ranked>(items: Seq<T>, rank: int, item: T)
    requires
        with_rank(items, rank).contains(item),
    ensures
        items.contains(item),
    decreases items.len(),
{
    if items.len() > 0 {
        let before = items.drop_last();
        let now = with_rank(items, rank);
        let k = choose|k: int| 0 <= k < now.len() && now[k] == item;
        if items.last().rank() == rank && k == now.len() - 1 {
            assert(items[items.len() - 1] == item);
        } else {
            assert(with_rank(before, rank)[k] == item);
            lemma_rank_from(before, rank, item);
            let j = choose|j: int| 0 <= j < before.len() && before[j] == item;
            assert(items[j] == item);
        }
    }
}

} // verus!
