use vstd::prelude::*;
use crate::types::{HilbertPair, Node, NodeIndex, TagIndex, Way};
use crate::ranges::{
    child_range, copy_range, gathered, lemma_gathered_prefix, lemma_range_bounds,
    lemma_rebuilt_ranges, order_in_bounds, range_end, range_len_sum, ranges_valid,
};

verus! {

/// Why a permutation cannot be applied to an entity table.
#[derive(Clone, Copy, Debug, PartialEq, Eq, Structural)]
pub enum RemapError {
    /// The pair array does not hold exactly one pair per entity.
    PairCountMismatch,
    /// A child range is out of order or runs past its table.
    InvalidRanges,
    /// A pair names an entity index past the end of the entity array.
    PairOutOfRange,
    /// Two pairs name the same entity, so the pairs are no permutation of the entities.
    DuplicatePair,
}

/// The unsorted entity indices in the order given by the pairs.
pub open spec fn pair_order(pairs: Seq<HilbertPair>) -> Seq<u64> {
    pairs.map_values(|p: HilbertPair| p.i)
}

/// The tag range starts of a node array.
pub open spec fn node_tag_starts(nodes: Seq<Node>) -> Seq<u64> {
    nodes.map_values(|n: Node| n.tag_first_idx)
}

/// The tag range starts of a way array.
pub open spec fn way_tag_starts(ways: Seq<Way>) -> Seq<u64> {
    ways.map_values(|w: Way| w.tag_first_idx)
}

/// The node-reference range starts of a way array.
pub open spec fn way_ref_starts(ways: Seq<Way>) -> Seq<u64> {
    ways.map_values(|w: Way| w.ref_first_idx)
}

/// Every pair names an entity of an array of `n`.
pub open spec fn order_in_bounds_of(pairs: Seq<HilbertPair>, n: int) -> bool {
    order_in_bounds(pair_order(pairs), n)
}

/// No two pairs name the same entity.
pub open spec fn order_distinct(pairs: Seq<HilbertPair>) -> bool {
    forall|j: int, k: int|
        0 <= j < k < pairs.len() ==> #[trigger] pair_order(pairs)[j] != #[trigger] pair_order(pairs)[k]
}

/// Distinct pairs give an order without duplicates.
pub proof fn lemma_distinct_order(pairs: Seq<HilbertPair>)
    requires
        order_distinct(pairs),
    ensures
        pair_order(pairs).no_duplicates(),
{
    let order = pair_order(pairs);
    assert forall|i: int, j: int| 0 <= i < order.len() && 0 <= j < order.len() && i != j implies order[i]
        != order[j] by {
        if i < j {
            assert(order[i] != order[j]);
        } else {
            assert(order[j] != order[i]);
        }
    }
}

/// The outcome of the input checks, first failing check first.
pub open spec fn remap_error(n: int, pairs: Seq<HilbertPair>, ranges_ok: bool) -> Option<RemapError> {
    if pairs.len() != n {
        Some(RemapError::PairCountMismatch)
    } else if !ranges_ok {
        Some(RemapError::InvalidRanges)
    } else if !order_in_bounds_of(pairs, n) {
        Some(RemapError::PairOutOfRange)
    } else if !order_distinct(pairs) {
        Some(RemapError::DuplicatePair)
    } else {
        None
    }
}

/// A node moved to a new place: all fields kept but the tag range start.
pub open spec fn relocated_node(n: Node, tag_start: nat) -> Node {
    Node { tag_first_idx: tag_start as u64, ..n }
}

/// A way moved to a new place: all fields kept but the two range starts.
pub open spec fn relocated_way(w: Way, tag_start: nat, ref_start: nat) -> Way {
    Way { tag_first_idx: tag_start as u64, ref_first_idx: ref_start as u64, ..w }
}

/// The input checks of a node remap.
pub open spec fn node_remap_error(
    nodes: Seq<Node>,
    tags_index: Seq<TagIndex>,
    tags_end: u64,
    pairs: Seq<HilbertPair>,
) -> Option<RemapError> {
    remap_error(
        nodes.len() as int,
        pairs,
        ranges_valid(node_tag_starts(nodes), tags_end, tags_index.len() as int),
    )
}

/// The input checks of a way remap.
pub open spec fn way_remap_error(
    ways: Seq<Way>,
    tags_index: Seq<TagIndex>,
    tags_end: u64,
    nodes_index: Seq<NodeIndex>,
    pairs: Seq<HilbertPair>,
) -> Option<RemapError> {
    remap_error(
        ways.len() as int,
        pairs,
        ranges_valid(way_tag_starts(ways), tags_end, tags_index.len() as int) && ranges_valid(
            way_ref_starts(ways),
            nodes_index.len() as u64,
            nodes_index.len() as int,
        ),
    )
}

/// The tags of the nodes in the order of `pairs`, concatenated.
pub open spec fn node_tags_gathered(
    nodes: Seq<Node>,
    tags_index: Seq<TagIndex>,
    tags_end: u64,
    pairs: Seq<HilbertPair>,
) -> Seq<TagIndex> {
    gathered(tags_index, node_tag_starts(nodes), tags_end, pair_order(pairs))
}

/// The tags of the ways in the order of `pairs`, concatenated.
pub open spec fn way_tags_gathered(
    ways: Seq<Way>,
    tags_index: Seq<TagIndex>,
    tags_end: u64,
    pairs: Seq<HilbertPair>,
) -> Seq<TagIndex> {
    gathered(tags_index, way_tag_starts(ways), tags_end, pair_order(pairs))
}

/// The node references of the ways in the order of `pairs`, concatenated.
pub open spec fn way_refs_gathered(
    ways: Seq<Way>,
    nodes_index: Seq<NodeIndex>,
    pairs: Seq<HilbertPair>,
) -> Seq<NodeIndex> {
    gathered(nodes_index, way_ref_starts(ways), nodes_index.len() as u64, pair_order(pairs))
}

/// `sorted` holds the nodes in the order of `pairs`, each with its tag range
/// start moved to where its tags land in a table that already held `base` entries.
pub open spec fn nodes_relocated(
    nodes: Seq<Node>,
    tags_index: Seq<TagIndex>,
    tags_end: u64,
    pairs: Seq<HilbertPair>,
    base: nat,
    sorted: Seq<Node>,
) -> bool {
    &&& sorted.len() == nodes.len()
    &&& forall|k: int|
        0 <= k < sorted.len() ==> #[trigger] sorted[k] == relocated_node(
            nodes[pair_order(pairs)[k] as int],
            base + gathered(
                tags_index,
                node_tag_starts(nodes),
                tags_end,
                pair_order(pairs).take(k),
            ).len(),
        )
}

/// `sorted` holds the ways in the order of `pairs`, each with its range starts
/// moved to where its tags and references land in tables that already held
/// `tag_base` and `ref_base` entries.
pub open spec fn ways_relocated(
    ways: Seq<Way>,
    tags_index: Seq<TagIndex>,
    tags_end: u64,
    nodes_index: Seq<NodeIndex>,
    pairs: Seq<HilbertPair>,
    tag_base: nat,
    ref_base: nat,
    sorted: Seq<Way>,
) -> bool {
    &&& sorted.len() == ways.len()
    &&& forall|k: int|
        0 <= k < sorted.len() ==> #[trigger] sorted[k] == relocated_way(
            ways[pair_order(pairs)[k] as int],
            tag_base + gathered(
                tags_index,
                way_tag_starts(ways),
                tags_end,
                pair_order(pairs).take(k),
            ).len(),
            ref_base + gathered(
                nodes_index,
                way_ref_starts(ways),
                nodes_index.len() as u64,
                pair_order(pairs).take(k),
            ).len(),
        )
}

/// Checks that every pair names an entity of an array of `n`.
fn check_order(pairs: &Vec<HilbertPair>, n: usize) -> (r: bool)
    ensures
        r == order_in_bounds(pair_order(pairs@), n as int),
{
    let mut k: usize = 0;
    while k < pairs.len()
        invariant
            k <= pairs.len(),
            forall|j: int| 0 <= j < k ==> #[trigger] pairs@[j].i < n,
        decreases pairs.len() - k,
    {
        if pairs[k].i as u128 >= n as u128 {
            assert(pair_order(pairs@)[k as int] == pairs@[k as int].i);
            return false;
        }
        k = k + 1;
    }
    assert forall|j: int| 0 <= j < pair_order(pairs@).len() implies #[trigger] pair_order(pairs@)[j] < n by {
        assert(pairs@[j].i < n);
    }
    true
}

/// Checks that no two pairs name the same entity of an array of `n`.
fn check_distinct(pairs: &Vec<HilbertPair>, n: usize) -> (r: bool)
    requires
        order_in_bounds_of(pairs@, n as int),
    ensures
        r == order_distinct(pairs@),
{
    let ghost order = pair_order(pairs@);
    let mut seen: Vec<bool> = Vec::with_capacity(n);
    let mut v: usize = 0;
    while v < n
        invariant
            v <= n,
            seen@.len() == v,
            forall|u: int| 0 <= u < v ==> !(#[trigger] seen@[u]),
        decreases n - v,
    {
        seen.push(false);
        v = v + 1;
    }
    let mut k: usize = 0;
    while k < pairs.len()
        invariant
            order == pair_order(pairs@),
            order_in_bounds(order, n as int),
            k <= pairs.len(),
            seen@.len() == n,
            forall|u: int|
                0 <= u < n ==> (#[trigger] seen@[u] <==> exists|j: int| 0 <= j < k && order[j] == u),
            forall|a: int, b: int| 0 <= a < b < k ==> #[trigger] order[a] != #[trigger] order[b],
        decreases pairs.len() - k,
    {
        assert(order[k as int] == pairs@[k as int].i);
        assert(order[k as int] < n);
        let i = pairs[k].i as usize;
        if seen[i] {
            let ghost j = choose|j: int| 0 <= j < k && order[j] == i;
            assert(order[j] == order[k as int]);
            return false;
        }
        seen.set(i, true);
        proof {
            assert forall|u: int| 0 <= u < n implies (#[trigger] seen@[u] <==> exists|j: int|
                0 <= j < k + 1 && order[j] == u) by {
                if u == i {
                    assert(order[k as int] == u);
                } else if seen@[u] {
                    let j = choose|j: int| 0 <= j < k && order[j] == u;
                    assert(0 <= j < k + 1 && order[j] == u);
                }
            }
            assert forall|a: int, b: int| 0 <= a < b < k + 1 implies #[trigger] order[a]
                != #[trigger] order[b] by {
                if b == k && order[a] == order[b] {
                    assert(seen@[i as int]);
                }
            }
        }
        k = k + 1;
    }
    true
}

/// Checks that the implicit tag ranges of `nodes`, the last one ending at
/// `tags_end`, are slices of a table of `table_len` entries.
fn check_node_ranges(nodes: &Vec<Node>, tags_end: u64, table_len: usize) -> (r: bool)
    ensures
        r == ranges_valid(node_tag_starts(nodes@), tags_end, table_len as int),
{
    let ghost starts = node_tag_starts(nodes@);
    if tags_end as u128 > table_len as u128 {
        return false;
    }
    let n = nodes.len();
    let mut k: usize = 0;
    while k < n
        invariant
            n == nodes.len(),
            starts == node_tag_starts(nodes@),
            k <= n,
            tags_end <= table_len,
            forall|j: int| 0 <= j < k ==> #[trigger] starts[j] <= range_end(starts, j, tags_end),
        decreases n - k,
    {
        let end: u64 = if k + 1 < n { nodes[k + 1].tag_first_idx } else { tags_end };
        if nodes[k].tag_first_idx > end {
            assert(starts[k as int] > range_end(starts, k as int, tags_end));
            return false;
        }
        k = k + 1;
    }
    true
}

/// Applies the permutation given by the sorted `pairs` to `nodes`.
///
/// Slot `k` of the result holds the node `nodes[pairs[k].i]`. Its tags, the
/// slice `tags_index[start..end]` where `start` is its `tag_first_idx` and
/// `end` the next node's (or `tags_end` for the last node), are appended to
/// `sorted_tags` in one left-to-right pass, and its `tag_first_idx` becomes the
/// position where they were appended. On error nothing is appended.
#[verifier::rlimit(40)]
pub fn remap_nodes(
    nodes: &Vec<Node>,
    tags_index: &Vec<TagIndex>,
    tags_end: u64,
    pairs: &Vec<HilbertPair>,
    sorted_tags: &mut Vec<TagIndex>,
) -> (r: Result<Vec<Node>, RemapError>)
    ensures
        match r {
            Err(e) => {
                &&& node_remap_error(nodes@, tags_index@, tags_end, pairs@) == Some(e)
                &&& final(sorted_tags)@ == old(sorted_tags)@
            },
            Ok(sorted) => {
                &&& node_remap_error(nodes@, tags_index@, tags_end, pairs@) is None
                &&& nodes_relocated(
                    nodes@,
                    tags_index@,
                    tags_end,
                    pairs@,
                    old(sorted_tags)@.len(),
                    sorted@,
                )
                &&& final(sorted_tags)@ == old(sorted_tags)@ + node_tags_gathered(
                    nodes@,
                    tags_index@,
                    tags_end,
                    pairs@,
                )
            },
        },
{
    let ghost starts = node_tag_starts(nodes@);
    let ghost order = pair_order(pairs@);
    let ghost old_tags = sorted_tags@;
    let n = nodes.len();
    if pairs.len() != n {
        return Err(RemapError::PairCountMismatch);
    }
    if !check_node_ranges(nodes, tags_end, tags_index.len()) {
        return Err(RemapError::InvalidRanges);
    }
    if !check_order(pairs, n) {
        return Err(RemapError::PairOutOfRange);
    }
    if !check_distinct(pairs, n) {
        return Err(RemapError::DuplicatePair);
    }
    let tags_len = tags_index.len();
    let mut sorted: Vec<Node> = Vec::with_capacity(n);
    let mut k: usize = 0;
    while k < n
        invariant
            n == nodes.len(),
            n == pairs.len(),
            tags_len == tags_index.len(),
            k <= n,
            starts == node_tag_starts(nodes@),
            order == pair_order(pairs@),
            ranges_valid(starts, tags_end, tags_index@.len() as int),
            order_in_bounds(order, n as int),
            sorted@.len() == k,
            sorted_tags@ == old_tags + gathered(tags_index@, starts, tags_end, order.take(k as int)),
            forall|j: int|
                0 <= j < k ==> #[trigger] sorted@[j] == relocated_node(
                    nodes@[order[j] as int],
                    old_tags.len() + gathered(tags_index@, starts, tags_end, order.take(j)).len(),
                ),
        decreases n - k,
    {
        assert(order[k as int] == pairs@[k as int].i);
        let i = pairs[k].i as usize;
        proof {
            lemma_range_bounds(starts, tags_end, tags_index@.len() as int, i as int);
            assert(starts[i as int] == nodes@[i as int].tag_first_idx);
            if i + 1 < n {
                assert(starts[i + 1] == nodes@[i + 1].tag_first_idx);
            }
        }
        let node = nodes[i];
        let start = node.tag_first_idx as usize;
        let end = if i + 1 < n { nodes[i + 1].tag_first_idx as usize } else { tags_end as usize };
        let tag_first_idx = sorted_tags.len() as u64;
        copy_range(tags_index, start, end, sorted_tags);
        proof {
            assert(order.take(k + 1).drop_last() =~= order.take(k as int));
            assert(order.take(k + 1).last() == order[k as int]);
            assert(child_range(tags_index@, starts, tags_end, i as int) == tags_index@.subrange(start as int, end as int));
            assert(sorted_tags@ =~= old_tags + gathered(tags_index@, starts, tags_end, order.take(k + 1)));
        }
        sorted.push(Node { tag_first_idx, ..node });
        k = k + 1;
    }
    assert(order.take(n as int) =~= order);
    Ok(sorted)
}

/// Checks that the implicit tag ranges of `ways`, the last one ending at
/// `tags_end`, are slices of a table of `table_len` entries.
fn check_way_tag_ranges(ways: &Vec<Way>, tags_end: u64, table_len: usize) -> (r: bool)
    ensures
        r == ranges_valid(way_tag_starts(ways@), tags_end, table_len as int),
{
    let ghost starts = way_tag_starts(ways@);
    if tags_end as u128 > table_len as u128 {
        return false;
    }
    let n = ways.len();
    let mut k: usize = 0;
    while k < n
        invariant
            n == ways.len(),
            starts == way_tag_starts(ways@),
            k <= n,
            tags_end <= table_len,
            forall|j: int| 0 <= j < k ==> #[trigger] starts[j] <= range_end(starts, j, tags_end),
        decreases n - k,
    {
        let end: u64 = if k + 1 < n { ways[k + 1].tag_first_idx } else { tags_end };
        if ways[k].tag_first_idx > end {
            assert(starts[k as int] > range_end(starts, k as int, tags_end));
            return false;
        }
        k = k + 1;
    }
    true
}

/// Checks that the implicit node-reference ranges of `ways`, the last one
/// ending at `table_len`, are slices of a table of `table_len` entries.
pub(crate) fn check_way_ref_ranges(ways: &Vec<Way>, table_len: usize) -> (r: bool)
    ensures
        r == ranges_valid(way_ref_starts(ways@), table_len as u64, table_len as int),
{
    let ghost starts = way_ref_starts(ways@);
    let refs_end = table_len as u64;
    let n = ways.len();
    let mut k: usize = 0;
    while k < n
        invariant
            n == ways.len(),
            starts == way_ref_starts(ways@),
            refs_end == table_len,
            k <= n,
            forall|j: int| 0 <= j < k ==> #[trigger] starts[j] <= range_end(starts, j, refs_end),
        decreases n - k,
    {
        let end: u64 = if k + 1 < n { ways[k + 1].ref_first_idx } else { refs_end };
        if ways[k].ref_first_idx > end {
            assert(starts[k as int] > range_end(starts, k as int, refs_end));
            return false;
        }
        k = k + 1;
    }
    true
}

/// Applies the permutation given by the sorted `pairs` to `ways`.
///
/// Slot `k` of the result holds the way `ways[pairs[k].i]`. Its tags and its
/// node references are appended, in one left-to-right pass, to `sorted_tags`
/// and `sorted_refs` respectively, and its two range starts become the
/// positions where they were appended. The last way's tag range ends at
/// `tags_end`, its reference range at the end of `nodes_index`. On error
/// nothing is appended.
pub fn remap_ways(
    ways: &Vec<Way>,
    tags_index: &Vec<TagIndex>,
    tags_end: u64,
    nodes_index: &Vec<NodeIndex>,
    pairs: &Vec<HilbertPair>,
    sorted_tags: &mut Vec<TagIndex>,
    sorted_refs: &mut Vec<NodeIndex>,
) -> (r: Result<Vec<Way>, RemapError>)
    ensures
        match r {
            Err(e) => {
                &&& way_remap_error(ways@, tags_index@, tags_end, nodes_index@, pairs@) == Some(e)
                &&& final(sorted_tags)@ == old(sorted_tags)@
                &&& final(sorted_refs)@ == old(sorted_refs)@
            },
            Ok(sorted) => {
                &&& way_remap_error(ways@, tags_index@, tags_end, nodes_index@, pairs@) is None
                &&& ways_relocated(
                    ways@,
                    tags_index@,
                    tags_end,
                    nodes_index@,
                    pairs@,
                    old(sorted_tags)@.len(),
                    old(sorted_refs)@.len(),
                    sorted@,
                )
                &&& final(sorted_tags)@ == old(sorted_tags)@ + way_tags_gathered(
                    ways@,
                    tags_index@,
                    tags_end,
                    pairs@,
                )
                &&& final(sorted_refs)@ == old(sorted_refs)@ + way_refs_gathered(
                    ways@,
                    nodes_index@,
                    pairs@,
                )
            },
        },
{
    let ghost tag_starts = way_tag_starts(ways@);
    let ghost ref_starts = way_ref_starts(ways@);
    let ghost order = pair_order(pairs@);
    let ghost old_tags = sorted_tags@;
    let ghost old_refs = sorted_refs@;
    let n = ways.len();
    let tags_len = tags_index.len();
    let refs_len = nodes_index.len();
    let refs_end = refs_len as u64;
    if pairs.len() != n {
        return Err(RemapError::PairCountMismatch);
    }
    let tags_ok = check_way_tag_ranges(ways, tags_end, tags_len);
    let refs_ok = check_way_ref_ranges(ways, refs_len);
    if !(tags_ok && refs_ok) {
        return Err(RemapError::InvalidRanges);
    }
    if !check_order(pairs, n) {
        return Err(RemapError::PairOutOfRange);
    }
    if !check_distinct(pairs, n) {
        return Err(RemapError::DuplicatePair);
    }
    let mut sorted: Vec<Way> = Vec::with_capacity(n);
    let mut k: usize = 0;
    while k < n
        invariant
            n == ways.len(),
            n == pairs.len(),
            tags_len == tags_index.len(),
            refs_len == nodes_index.len(),
            refs_end == refs_len,
            k <= n,
            tag_starts == way_tag_starts(ways@),
            ref_starts == way_ref_starts(ways@),
            order == pair_order(pairs@),
            ranges_valid(tag_starts, tags_end, tags_len as int),
            ranges_valid(ref_starts, refs_end, refs_len as int),
            order_in_bounds(order, n as int),
            sorted@.len() == k,
            sorted_tags@ == old_tags + gathered(tags_index@, tag_starts, tags_end, order.take(k as int)),
            sorted_refs@ == old_refs + gathered(nodes_index@, ref_starts, refs_end, order.take(k as int)),
            forall|j: int|
                0 <= j < k ==> #[trigger] sorted@[j] == relocated_way(
                    ways@[order[j] as int],
                    old_tags.len() + gathered(tags_index@, tag_starts, tags_end, order.take(j)).len(),
                    old_refs.len() + gathered(nodes_index@, ref_starts, refs_end, order.take(j)).len(),
                ),
        decreases n - k,
    {
        assert(order[k as int] == pairs@[k as int].i);
        let i = pairs[k].i as usize;
        proof {
            lemma_range_bounds(tag_starts, tags_end, tags_len as int, i as int);
            lemma_range_bounds(ref_starts, refs_end, refs_len as int, i as int);
            assert(tag_starts[i as int] == ways@[i as int].tag_first_idx);
            assert(ref_starts[i as int] == ways@[i as int].ref_first_idx);
            if i + 1 < n {
                assert(tag_starts[i + 1] == ways@[i + 1].tag_first_idx);
                assert(ref_starts[i + 1] == ways@[i + 1].ref_first_idx);
            }
        }
        let way = ways[i];
        let tag_start = way.tag_first_idx as usize;
        let tag_end = if i + 1 < n { ways[i + 1].tag_first_idx as usize } else { tags_end as usize };
        let ref_start = way.ref_first_idx as usize;
        let ref_end = if i + 1 < n { ways[i + 1].ref_first_idx as usize } else { refs_len };
        let tag_first_idx = sorted_tags.len() as u64;
        let ref_first_idx = sorted_refs.len() as u64;
        copy_range(tags_index, tag_start, tag_end, sorted_tags);
        copy_range(nodes_index, ref_start, ref_end, sorted_refs);
        proof {
            assert(order.take(k + 1).drop_last() =~= order.take(k as int));
            assert(order.take(k + 1).last() == order[k as int]);
            assert(child_range(tags_index@, tag_starts, tags_end, i as int)
                == tags_index@.subrange(tag_start as int, tag_end as int));
            assert(child_range(nodes_index@, ref_starts, refs_end, i as int)
                == nodes_index@.subrange(ref_start as int, ref_end as int));
            assert(sorted_tags@ =~= old_tags + gathered(tags_index@, tag_starts, tags_end, order.take(k + 1)));
            assert(sorted_refs@ =~= old_refs + gathered(nodes_index@, ref_starts, refs_end, order.take(k + 1)));
        }
        sorted.push(Way { tag_first_idx, ref_first_idx, ..way });
        k = k + 1;
    }
    assert(order.take(n as int) =~= order);
    Ok(sorted)
}

/// The new starts of the entities listed in `order` are the numbers of
/// entries in the table before their copies.
proof fn lemma_new_starts<T>(
    table: Seq<T>,
    starts: Seq<u64>,
    last_end: u64,
    order: Seq<u64>,
    pre_len: nat,
    new_starts: Seq<u64>,
)
    requires
        pre_len + gathered(table, starts, last_end, order).len() <= u64::MAX,
        new_starts.len() == order.len(),
        forall|k: int|
            0 <= k < new_starts.len() ==> #[trigger] new_starts[k] == (pre_len + gathered(
                table,
                starts,
                last_end,
                order.take(k),
            ).len()) as u64,
    ensures
        forall|k: int|
            0 <= k < new_starts.len() ==> #[trigger] new_starts[k] == pre_len + gathered(
                table,
                starts,
                last_end,
                order.take(k),
            ).len(),
{
    assert forall|k: int| 0 <= k < new_starts.len() implies #[trigger] new_starts[k] == pre_len
        + gathered(table, starts, last_end, order.take(k)).len() by {
        lemma_gathered_prefix(table, starts, last_end, order, k);
    }
}

/// The tag ranges of remapped nodes tile the rebuilt tag table.
///
/// Given a node remap, as `remap_nodes` describes it, into a tag table that
/// held the entries `pre`: the rebuilt table is as long as `pre` and the
/// nodes' old tag ranges together; the new tag ranges are valid over it, the
/// first starts right after `pre` and each starts where the previous one
/// ended; the new starts never decrease; and the node in slot `k` owns
/// exactly the tags that node `pairs[k].i` owned, in their old order.
pub proof fn lemma_node_remap_tiles(
    nodes: Seq<Node>,
    tags_index: Seq<TagIndex>,
    tags_end: u64,
    pairs: Seq<HilbertPair>,
    pre: Seq<TagIndex>,
    sorted: Seq<Node>,
    sorted_tags: Seq<TagIndex>,
)
    requires
        node_remap_error(nodes, tags_index, tags_end, pairs) is None,
        nodes_relocated(nodes, tags_index, tags_end, pairs, pre.len(), sorted),
        sorted_tags == pre + node_tags_gathered(nodes, tags_index, tags_end, pairs),
        sorted_tags.len() <= u64::MAX,
    ensures
        sorted_tags.len() == pre.len() + range_len_sum(
            node_tag_starts(nodes),
            tags_end,
            pair_order(pairs),
        ),
        ranges_valid(node_tag_starts(sorted), sorted_tags.len() as u64, sorted_tags.len() as int),
        sorted.len() > 0 ==> sorted[0].tag_first_idx == pre.len(),
        forall|j: int, k: int|
            0 <= j <= k < sorted.len() ==> #[trigger] sorted[j].tag_first_idx
                <= #[trigger] sorted[k].tag_first_idx,
        forall|k: int|
            0 <= k < sorted.len() ==> #[trigger] child_range(
                sorted_tags,
                node_tag_starts(sorted),
                sorted_tags.len() as u64,
                k,
            ) == child_range(
                tags_index,
                node_tag_starts(nodes),
                tags_end,
                pair_order(pairs)[k] as int,
            ),
{
    let starts = node_tag_starts(nodes);
    let order = pair_order(pairs);
    let new_starts = node_tag_starts(sorted);
    assert forall|k: int| 0 <= k < new_starts.len() implies #[trigger] new_starts[k] == (pre.len()
        + gathered(tags_index, starts, tags_end, order.take(k)).len()) as u64 by {
        assert(new_starts[k] == sorted[k].tag_first_idx);
    }
    lemma_new_starts(tags_index, starts, tags_end, order, pre.len(), new_starts);
    lemma_rebuilt_ranges(tags_index, starts, tags_end, order, pre, sorted_tags, new_starts);
    assert forall|j: int, k: int| 0 <= j <= k < sorted.len() implies #[trigger] sorted[j].tag_first_idx
        <= #[trigger] sorted[k].tag_first_idx by {
        assert(new_starts[j] <= new_starts[k]);
    }
    if sorted.len() > 0 {
        assert(new_starts[0] == pre.len());
    }
}

/// The tag and node-reference ranges of remapped ways tile the rebuilt tables.
///
/// Given a way remap, as `remap_ways` describes it, into a tag table that
/// held the entries `tag_pre` and a reference table that held `ref_pre`: each
/// rebuilt table is as long as its earlier entries and the ways' old ranges
/// in it together; the new ranges are valid over it, the first starts right
/// after the earlier entries and each starts where the previous one ended;
/// the new starts never decrease; and the way in slot `k` owns exactly the
/// tags and node references that way `pairs[k].i` owned, in their old order.
pub proof fn lemma_way_remap_tiles(
    ways: Seq<Way>,
    tags_index: Seq<TagIndex>,
    tags_end: u64,
    nodes_index: Seq<NodeIndex>,
    pairs: Seq<HilbertPair>,
    tag_pre: Seq<TagIndex>,
    ref_pre: Seq<NodeIndex>,
    sorted: Seq<Way>,
    sorted_tags: Seq<TagIndex>,
    sorted_refs: Seq<NodeIndex>,
)
    requires
        way_remap_error(ways, tags_index, tags_end, nodes_index, pairs) is None,
        ways_relocated(
            ways,
            tags_index,
            tags_end,
            nodes_index,
            pairs,
            tag_pre.len(),
            ref_pre.len(),
            sorted,
        ),
        sorted_tags == tag_pre + way_tags_gathered(ways, tags_index, tags_end, pairs),
        sorted_refs == ref_pre + way_refs_gathered(ways, nodes_index, pairs),
        sorted_tags.len() <= u64::MAX,
        sorted_refs.len() <= u64::MAX,
    ensures
        sorted_tags.len() == tag_pre.len() + range_len_sum(
            way_tag_starts(ways),
            tags_end,
            pair_order(pairs),
        ),
        sorted_refs.len() == ref_pre.len() + range_len_sum(
            way_ref_starts(ways),
            nodes_index.len() as u64,
            pair_order(pairs),
        ),
        ranges_valid(way_tag_starts(sorted), sorted_tags.len() as u64, sorted_tags.len() as int),
        ranges_valid(way_ref_starts(sorted), sorted_refs.len() as u64, sorted_refs.len() as int),
        sorted.len() > 0 ==> sorted[0].tag_first_idx == tag_pre.len() && sorted[0].ref_first_idx
            == ref_pre.len(),
        forall|j: int, k: int|
            0 <= j <= k < sorted.len() ==> #[trigger] sorted[j].tag_first_idx
                <= #[trigger] sorted[k].tag_first_idx && sorted[j].ref_first_idx
                <= sorted[k].ref_first_idx,
        forall|k: int|
            0 <= k < sorted.len() ==> #[trigger] child_range(
                sorted_tags,
                way_tag_starts(sorted),
                sorted_tags.len() as u64,
                k,
            ) == child_range(
                tags_index,
                way_tag_starts(ways),
                tags_end,
                pair_order(pairs)[k] as int,
            ),
        forall|k: int|
            0 <= k < sorted.len() ==> #[trigger] child_range(
                sorted_refs,
                way_ref_starts(sorted),
                sorted_refs.len() as u64,
                k,
            ) == child_range(
                nodes_index,
                way_ref_starts(ways),
                nodes_index.len() as u64,
                pair_order(pairs)[k] as int,
            ),
{
    let tag_starts = way_tag_starts(ways);
    let ref_starts = way_ref_starts(ways);
    let refs_end = nodes_index.len() as u64;
    let order = pair_order(pairs);
    let new_tag_starts = way_tag_starts(sorted);
    let new_ref_starts = way_ref_starts(sorted);
    assert forall|k: int| 0 <= k < new_tag_starts.len() implies #[trigger] new_tag_starts[k] == (
    tag_pre.len() + gathered(tags_index, tag_starts, tags_end, order.take(k)).len()) as u64 by {
        assert(new_tag_starts[k] == sorted[k].tag_first_idx);
    }
    assert forall|k: int| 0 <= k < new_ref_starts.len() implies #[trigger] new_ref_starts[k] == (
    ref_pre.len() + gathered(nodes_index, ref_starts, refs_end, order.take(k)).len()) as u64 by {
        assert(new_ref_starts[k] == sorted[k].ref_first_idx);
    }
    lemma_new_starts(tags_index, tag_starts, tags_end, order, tag_pre.len(), new_tag_starts);
    lemma_new_starts(nodes_index, ref_starts, refs_end, order, ref_pre.len(), new_ref_starts);
    lemma_rebuilt_ranges(tags_index, tag_starts, tags_end, order, tag_pre, sorted_tags, new_tag_starts);
    lemma_rebuilt_ranges(nodes_index, ref_starts, refs_end, order, ref_pre, sorted_refs, new_ref_starts);
    assert forall|j: int, k: int| 0 <= j <= k < sorted.len() implies #[trigger] sorted[j].tag_first_idx
        <= #[trigger] sorted[k].tag_first_idx && sorted[j].ref_first_idx <= sorted[k].ref_first_idx by {
        assert(new_tag_starts[j] <= new_tag_starts[k]);
        assert(new_ref_starts[j] <= new_ref_starts[k]);
    }
    if sorted.len() > 0 {
        assert(new_tag_starts[0] == tag_pre.len());
        assert(new_ref_starts[0] == ref_pre.len());
    }
}

} // verus!
