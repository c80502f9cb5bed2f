use vstd::prelude::*;
use crate::types::HilbertPair;
use crate::hilbert::{location_key, point_key, Point};
use crate::remap::{order_distinct, order_in_bounds_of, pair_order};

verus! {

/// The pair of way `k`: keyed by its location, or by 0 when it has none, in
/// which case it keeps its place in the run under that default key.
pub open spec fn way_pair(k: int, location: Option<Point>) -> HilbertPair {
    match location {
        Some(p) => HilbertPair { i: k as u64, h: point_key(p) },
        None => HilbertPair { i: k as u64, h: 0 },
    }
}

/// The indices of the ways without a location, ascending.
pub open spec fn unlocated(locations: Seq<Option<Point>>) -> Seq<u64>
    decreases locations.len(),
{
    if locations.len() == 0 {
        Seq::empty()
    } else {
        let rest = unlocated(locations.drop_last());
        if locations.last() is None {
            rest.push((locations.len() - 1) as u64)
        } else {
            rest
        }
    }
}

/// Fills one pair per way from the ways' representative points.
///
/// Slot `k` becomes `{ i: k, h: key }`, where `key` is the Hilbert key of
/// `locations[k]`, or 0 where way `k` has no location. Returns the indices of
/// the ways without a location, for the caller to report.
pub fn build_hilbert_way_pairs(
    hilbert_way_pairs: &mut Vec<HilbertPair>,
    locations: &Vec<Option<Point>>,
) -> (unlocated_ways: Vec<u64>)
    requires
        old(hilbert_way_pairs).len() == locations.len(),
    ensures
        final(hilbert_way_pairs).len() == locations.len(),
        forall|k: int|
            0 <= k < locations.len() ==> #[trigger] final(hilbert_way_pairs)@[k] == way_pair(
                k,
                locations@[k],
            ),
        unlocated_ways@ == unlocated(locations@),
{
    let n = locations.len();
    let mut missing: Vec<u64> = Vec::new();
    let mut k: usize = 0;
    while k < n
        invariant
            n == locations.len(),
            hilbert_way_pairs.len() == n,
            k <= n,
            forall|j: int| 0 <= j < k ==> #[trigger] hilbert_way_pairs@[j] == way_pair(j, locations@[j]),
            missing@ == unlocated(locations@.take(k as int)),
        decreases n - k,
    {
        assert(locations@.take(k + 1).drop_last() =~= locations@.take(k as int));
        assert(locations@.take(k + 1).last() == locations@[k as int]);
        match locations[k] {
            Some(p) => {
                let h = location_key(p);
                hilbert_way_pairs.set(k, HilbertPair { i: k as u64, h });
            },
            None => {
                hilbert_way_pairs.set(k, HilbertPair { i: k as u64, h: 0 });
                missing.push(k as u64);
            },
        }
        k = k + 1;
    }
    assert(locations@.take(n as int) =~= locations@);
    missing
}

/// Pairs built for `n` ways pass a remap's pair checks: one pair per way,
/// every pair names a way, and no two name the same way.
pub proof fn lemma_built_pairs_in_bounds(
    locations: Seq<Option<Point>>,
    pairs: Seq<HilbertPair>,
)
    requires
        locations.len() <= u64::MAX,
        pairs.len() == locations.len(),
        forall|k: int| 0 <= k < locations.len() ==> #[trigger] pairs[k] == way_pair(k, locations[k]),
    ensures
        order_in_bounds_of(pairs, locations.len() as int),
        order_distinct(pairs),
{
    assert forall|k: int| 0 <= k < pair_order(pairs).len() implies #[trigger] pair_order(pairs)[k]
        < locations.len() by {
        assert(pairs[k] == way_pair(k, locations[k]));
    }
    assert forall|j: int, k: int| 0 <= j < k < pairs.len() implies #[trigger] pair_order(pairs)[j]
        != #[trigger] pair_order(pairs)[k] by {
        assert(pairs[j] == way_pair(j, locations[j]));
        assert(pairs[k] == way_pair(k, locations[k]));
    }
}

} // verus!
