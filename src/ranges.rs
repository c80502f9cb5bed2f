use vstd::prelude::*;

verus! {

/// End of child range `k` when ranges are implicit: the next entity's start,
/// or `last_end` for the last entity.
pub open spec fn range_end(starts: Seq<u64>, k: int, last_end: u64) -> int {
    if k + 1 < starts.len() {
        starts[k + 1] as int
    } else {
        last_end as int
    }
}

/// Every implicit child range is a well-ordered slice of a table of `table_len` entries.
pub open spec fn ranges_valid(starts: Seq<u64>, last_end: u64, table_len: int) -> bool {
    &&& last_end <= table_len
    &&& forall|k: int| 0 <= k < starts.len() ==> #[trigger] starts[k] <= range_end(starts, k, last_end)
}

/// The child slice of entity `k`.
pub open spec fn child_range<T>(table: Seq<T>, starts: Seq<u64>, last_end: u64, k: int) -> Seq<T> {
    table.subrange(starts[k] as int, range_end(starts, k, last_end))
}

/// The child slices of the entities listed in `order`, concatenated in that order.
pub open spec fn gathered<T>(table: Seq<T>, starts: Seq<u64>, last_end: u64, order: Seq<u64>) -> Seq<T>
    decreases order.len(),
{
    if order.len() == 0 {
        Seq::empty()
    } else {
        gathered(table, starts, last_end, order.drop_last()) + child_range(
            table,
            starts,
            last_end,
            order.last() as int,
        )
    }
}

/// Every entry of `order` names an entity.
pub open spec fn order_in_bounds(order: Seq<u64>, n: int) -> bool {
    forall|k: int| 0 <= k < order.len() ==> #[trigger] order[k] < n
}

/// Under valid ranges each child range lies inside `[0, last_end]`.
pub proof fn lemma_range_bounds(starts: Seq<u64>, last_end: u64, table_len: int, k: int)
    requires
        ranges_valid(starts, last_end, table_len),
        0 <= k < starts.len(),
    ensures
        starts[k] <= range_end(starts, k, last_end) <= last_end <= table_len,
    decreases starts.len() - k,
{
    assert(starts[k] <= range_end(starts, k, last_end));
    if k + 1 < starts.len() {
        lemma_range_bounds(starts, last_end, table_len, k + 1);
    }
}

/// Sum of the lengths of the child ranges of the entities listed in `order`.
pub open spec fn range_len_sum(starts: Seq<u64>, last_end: u64, order: Seq<u64>) -> int
    decreases order.len(),
{
    if order.len() == 0 {
        0
    } else {
        range_len_sum(starts, last_end, order.drop_last()) + range_end(
            starts,
            order.last() as int,
            last_end,
        ) - starts[order.last() as int]
    }
}

/// The gathered table is as long as the sum of the gathered ranges.
pub proof fn lemma_gathered_len<T>(table: Seq<T>, starts: Seq<u64>, last_end: u64, order: Seq<u64>)
    requires
        ranges_valid(starts, last_end, table.len() as int),
        order_in_bounds(order, starts.len() as int),
    ensures
        gathered(table, starts, last_end, order).len() == range_len_sum(starts, last_end, order),
    decreases order.len(),
{
    if order.len() > 0 {
        let rest = order.drop_last();
        assert forall|k: int| 0 <= k < rest.len() implies #[trigger] rest[k] < starts.len() by {
            assert(rest[k] == order[k]);
        }
        lemma_gathered_len(table, starts, last_end, rest);
        assert(order[order.len() - 1] < starts.len());
        lemma_range_bounds(starts, last_end, table.len() as int, order.last() as int);
    }
}

/// Gathering a prefix of `order` gives a prefix of gathering all of `order`.
pub proof fn lemma_gathered_prefix<T>(
    table: Seq<T>,
    starts: Seq<u64>,
    last_end: u64,
    order: Seq<u64>,
    m: int,
)
    requires
        0 <= m <= order.len(),
    ensures
        gathered(table, starts, last_end, order.take(m)).len() <= gathered(
            table,
            starts,
            last_end,
            order,
        ).len(),
        gathered(table, starts, last_end, order).subrange(
            0,
            gathered(table, starts, last_end, order.take(m)).len() as int,
        ) == gathered(table, starts, last_end, order.take(m)),
    decreases order.len(),
{
    let whole = gathered(table, starts, last_end, order);
    if m < order.len() {
        let rest = order.drop_last();
        lemma_gathered_prefix(table, starts, last_end, rest, m);
        assert(rest.take(m) =~= order.take(m));
        let part = gathered(table, starts, last_end, rest);
        let pre = gathered(table, starts, last_end, order.take(m));
        assert(whole == part + child_range(table, starts, last_end, order.last() as int));
        assert(whole.subrange(0, pre.len() as int) =~= part.subrange(0, pre.len() as int));
    } else {
        assert(order.take(m) =~= order);
        assert(whole.subrange(0, whole.len() as int) =~= whole);
    }
}

/// The rebuilt range at position `k` of `order`.
proof fn lemma_rebuilt_range_at<T>(
    table: Seq<T>,
    starts: Seq<u64>,
    last_end: u64,
    order: Seq<u64>,
    pre: Seq<T>,
    new_table: Seq<T>,
    new_starts: Seq<u64>,
    k: int,
)
    requires
        new_table == pre + gathered(table, starts, last_end, order),
        new_table.len() <= u64::MAX,
        new_starts.len() == order.len(),
        forall|j: int|
            0 <= j < new_starts.len() ==> #[trigger] new_starts[j] == pre.len() + gathered(
                table,
                starts,
                last_end,
                order.take(j),
            ).len(),
        0 <= k < order.len(),
    ensures
        new_starts[k] <= range_end(new_starts, k, new_table.len() as u64),
        child_range(new_table, new_starts, new_table.len() as u64, k) == child_range(
            table,
            starts,
            last_end,
            order[k] as int,
        ),
{
    let n = order.len() as int;
    let whole = gathered(table, starts, last_end, order);
    let before = gathered(table, starts, last_end, order.take(k));
    let next = gathered(table, starts, last_end, order.take(k + 1));
    let c = child_range(table, starts, last_end, order[k] as int);
    lemma_gathered_prefix(table, starts, last_end, order, k);
    lemma_gathered_prefix(table, starts, last_end, order, k + 1);
    assert(order.take(k + 1).drop_last() =~= order.take(k));
    assert(next == before + c);
    if k + 1 < n {
        assert(new_starts[k + 1] == pre.len() + next.len());
    } else {
        assert(order.take(k + 1) =~= order);
    }
    assert(range_end(new_starts, k, new_table.len() as u64) == pre.len() + next.len());
    let lo = before.len() as int;
    let hi = next.len() as int;
    assert(next.subrange(lo, hi) =~= c);
    assert(whole.subrange(0, hi).subrange(lo, hi) =~= whole.subrange(lo, hi));
    assert(whole.subrange(lo, hi) =~= c);
    assert(new_table.subrange(pre.len() + lo, pre.len() + hi) =~= whole.subrange(lo, hi));
}

/// Rebuilt child ranges tile the rebuilt table.
///
/// When the entities listed in `order` have their child ranges copied, in
/// that order, after the entries `pre` of a table, and the `k`-th of them is
/// given as its new start the number of entries in the table before its copy,
/// then: the new table is as long as `pre` and the copied ranges together;
/// the new ranges are valid over it, the first starts right after `pre` and
/// each starts where the previous one ended; the new starts never decrease;
/// and the new range of the `k`-th entity holds exactly the entries of its old
/// range, in their old order.
pub proof fn lemma_rebuilt_ranges<T>(
    table: Seq<T>,
    starts: Seq<u64>,
    last_end: u64,
    order: Seq<u64>,
    pre: Seq<T>,
    new_table: Seq<T>,
    new_starts: Seq<u64>,
)
    requires
        ranges_valid(starts, last_end, table.len() as int),
        order_in_bounds(order, starts.len() as int),
        new_table == pre + gathered(table, starts, last_end, order),
        new_table.len() <= u64::MAX,
        new_starts.len() == order.len(),
        forall|k: int|
            0 <= k < new_starts.len() ==> #[trigger] new_starts[k] == pre.len() + gathered(
                table,
                starts,
                last_end,
                order.take(k),
            ).len(),
    ensures
        new_table.len() == pre.len() + range_len_sum(starts, last_end, order),
        ranges_valid(new_starts, new_table.len() as u64, new_table.len() as int),
        new_starts.len() > 0 ==> new_starts[0] == pre.len(),
        forall|k: int|
            0 <= k < new_starts.len() ==> #[trigger] child_range(
                new_table,
                new_starts,
                new_table.len() as u64,
                k,
            ) == child_range(table, starts, last_end, order[k] as int),
        forall|j: int, k: int|
            0 <= j <= k < new_starts.len() ==> #[trigger] new_starts[j] <= #[trigger] new_starts[k],
{
    let n = order.len() as int;
    let new_end = new_table.len() as u64;
    lemma_gathered_len(table, starts, last_end, order);
    assert forall|k: int| 0 <= k < n implies #[trigger] new_starts[k] <= range_end(new_starts, k, new_end) by {
        lemma_rebuilt_range_at(table, starts, last_end, order, pre, new_table, new_starts, k);
    }
    assert forall|k: int| 0 <= k < n implies #[trigger] child_range(new_table, new_starts, new_end, k)
        == child_range(table, starts, last_end, order[k] as int) by {
        lemma_rebuilt_range_at(table, starts, last_end, order, pre, new_table, new_starts, k);
    }
    assert forall|j: int, k: int| 0 <= j <= k < n implies #[trigger] new_starts[j] <= #[trigger] new_starts[k] by {
        let sub = order.take(k);
        lemma_gathered_prefix(table, starts, last_end, sub, j);
        assert(sub.take(j) =~= order.take(j));
    }
    if n > 0 {
        assert(order.take(0) =~= Seq::<u64>::empty());
        assert(new_starts[0] == pre.len());
    }
}

/// Length of child range `j`.
pub open spec fn range_len(starts: Seq<u64>, last_end: u64, j: int) -> int {
    range_end(starts, j, last_end) - starts[j]
}

/// Sum of the lengths of the child ranges of entities `0..m`, in index order.
pub open spec fn index_len_sum(starts: Seq<u64>, last_end: u64, m: int) -> int
    decreases m,
{
    if m <= 0 {
        0
    } else {
        index_len_sum(starts, last_end, m - 1) + range_len(starts, last_end, m - 1)
    }
}

/// Taking one entry out of `order` takes its range length out of the sum.
proof fn lemma_range_len_sum_remove(starts: Seq<u64>, last_end: u64, order: Seq<u64>, p: int)
    requires
        0 <= p < order.len(),
    ensures
        range_len_sum(starts, last_end, order) == range_len_sum(starts, last_end, order.remove(p))
            + range_len(starts, last_end, order[p] as int),
    decreases order.len(),
{
    if p == order.len() - 1 {
        assert(order.remove(p) =~= order.drop_last());
    } else {
        let rest = order.drop_last();
        lemma_range_len_sum_remove(starts, last_end, rest, p);
        assert(order.remove(p).drop_last() =~= rest.remove(p));
        assert(order.remove(p).last() == order.last());
    }
}

/// A duplicate-free sequence of `m` values below `m` holds the value `m - 1`.
proof fn lemma_holds_top(order: Seq<u64>, m: int)
    requires
        m > 0,
        order.len() == m,
        order.no_duplicates(),
        forall|k: int| 0 <= k < order.len() ==> #[trigger] order[k] < m,
    ensures
        exists|p: int| 0 <= p < order.len() && order[p] == m - 1,
{
    let ints = order.map_values(|v: u64| v as int);
    assert(ints.no_duplicates()) by {
        assert forall|i: int, j: int| 0 <= i < ints.len() && 0 <= j < ints.len() && i != j
            implies ints[i] != ints[j] by {
            assert(order[i] != order[j]);
        }
    }
    ints.unique_seq_to_set();
    let range = vstd::set_lib::set_int_range(0, m);
    vstd::set_lib::lemma_int_range(0, m);
    assert(ints.to_set().subset_of(range)) by {
        assert forall|x: int| ints.to_set().contains(x) implies range.contains(x) by {
            assert(ints.contains(x));
            let k = choose|k: int| 0 <= k < ints.len() && ints[k] == x;
            assert(order[k] < m);
        }
    }
    vstd::set_lib::lemma_len_subset(ints.to_set(), range);
    vstd::set_lib::lemma_subset_equality(ints.to_set(), range);
    assert(range.contains(m - 1));
    assert(ints.to_set().contains(m - 1));
    assert(ints.contains(m - 1));
    let p = choose|p: int| 0 <= p < ints.len() && ints[p] == m - 1;
    assert(order[p] == m - 1);
}

/// Over a duplicate-free `order` of `m` entities below `m`, the sum of range
/// lengths does not depend on the order.
proof fn lemma_permuted_sum(starts: Seq<u64>, last_end: u64, order: Seq<u64>, m: int)
    requires
        0 <= m,
        order.len() == m,
        order.no_duplicates(),
        forall|k: int| 0 <= k < order.len() ==> #[trigger] order[k] < m,
    ensures
        range_len_sum(starts, last_end, order) == index_len_sum(starts, last_end, m),
    decreases m,
{
    if m > 0 {
        lemma_holds_top(order, m);
        let p = choose|p: int| 0 <= p < order.len() && order[p] == m - 1;
        let rest = order.remove(p);
        lemma_range_len_sum_remove(starts, last_end, order, p);
        assert forall|k: int| 0 <= k < rest.len() implies #[trigger] rest[k] < m - 1 by {
            if k < p {
                assert(rest[k] == order[k] && order[k] != order[p]);
            } else {
                assert(rest[k] == order[k + 1] && order[k + 1] != order[p]);
            }
        }
        assert(rest.no_duplicates()) by {
            assert forall|i: int, j: int| 0 <= i < rest.len() && 0 <= j < rest.len() && i != j
                implies rest[i] != rest[j] by {
                let oi = if i < p { i } else { i + 1 };
                let oj = if j < p { j } else { j + 1 };
                assert(rest[i] == order[oi] && rest[j] == order[oj]);
            }
        }
        lemma_permuted_sum(starts, last_end, rest, m - 1);
    } else {
        assert(order =~= Seq::<u64>::empty());
    }
}

/// The lengths of consecutive ranges `0..m` add up to the span they cover.
proof fn lemma_index_sum_span(starts: Seq<u64>, last_end: u64, m: int)
    requires
        1 <= m <= starts.len(),
    ensures
        index_len_sum(starts, last_end, m) == range_end(starts, m - 1, last_end) - starts[0],
    decreases m,
{
    assert(index_len_sum(starts, last_end, m) == index_len_sum(starts, last_end, m - 1)
        + range_len(starts, last_end, m - 1));
    if m > 1 {
        lemma_index_sum_span(starts, last_end, m - 1);
        assert(range_end(starts, m - 2, last_end) == starts[m - 1]);
    } else {
        assert(index_len_sum(starts, last_end, 0) == 0);
    }
}

/// Copying the child ranges of every entity exactly once, in any order,
/// copies as many entries as their ranges span together, in index order:
/// from the first entity's start to `last_end`.
pub proof fn lemma_permuted_ranges_total(starts: Seq<u64>, last_end: u64, order: Seq<u64>)
    requires
        order.len() == starts.len(),
        order.no_duplicates(),
        order_in_bounds(order, starts.len() as int),
    ensures
        range_len_sum(starts, last_end, order) == index_len_sum(
            starts,
            last_end,
            starts.len() as int,
        ),
        range_len_sum(starts, last_end, order) == if starts.len() == 0 {
            0
        } else {
            last_end - starts[0]
        },
{
    lemma_permuted_sum(starts, last_end, order, starts.len() as int);
    if starts.len() > 0 {
        lemma_index_sum_span(starts, last_end, starts.len() as int);
    }
}

/// Appends `table[start..end]` to `out`.
pub fn copy_range<T: Copy>(table: &Vec<T>, start: usize, end: usize, out: &mut Vec<T>)
    requires
        start <= end <= table.len(),
    ensures
        final(out)@ == old(out)@ + table@.subrange(start as int, end as int),
{
    let mut j: usize = start;
    while j < end
        invariant
            start <= j <= end <= table.len(),
            out@ == old(out)@ + table@.subrange(start as int, j as int),
        decreases end - j,
    {
        out.push(table[j]);
        assert(table@.subrange(start as int, j + 1) =~= table@.subrange(start as int, j as int).push(table@[j as int]));
        j = j + 1;
    }
}

} // verus!
