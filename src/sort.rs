use vstd::prelude::*;
use crate::types::HilbertPair;
use crate::remap::{order_distinct, order_in_bounds_of, pair_order, remap_error};

verus! {

broadcast use vstd::seq_lib::group_to_multiset_ensures;

/// Keys never decrease along the sequence.
pub open spec fn sorted_by_key(s: Seq<HilbertPair>) -> bool {
    forall|j: int, k: int| 0 <= j <= k < s.len() ==> #[trigger] s[j].h <= #[trigger] s[k].h
}

/// Relies on rayon's `ParallelSliceMut::par_sort_unstable_by_key`, keyed by
/// `h`: it reorders the elements, and leaves them in ascending key order.
#[verifier::external_body]
pub(crate) fn par_sort_by_key(pairs: &mut Vec<HilbertPair>)
    ensures
        final(pairs)@.to_multiset() == old(pairs)@.to_multiset(),
        sorted_by_key(final(pairs)@),
{
    rayon::slice::ParallelSliceMut::par_sort_unstable_by_key(
        pairs.as_mut_slice(),
        |p: &HilbertPair| p.h,
    )
}

/// Reordering the pairs changes none of the checks of a remap: the pair count
/// and whether every pair names an entity depend on the pairs as a multiset.
pub proof fn lemma_remap_error_reorder(
    n: int,
    a: Seq<HilbertPair>,
    b: Seq<HilbertPair>,
    ranges_ok: bool,
)
    requires
        a.to_multiset() == b.to_multiset(),
    ensures
        remap_error(n, a, ranges_ok) == remap_error(n, b, ranges_ok),
{
    assert(a.to_multiset().len() == a.len());
    assert(b.to_multiset().len() == b.len());
    if order_in_bounds_of(a, n) {
        lemma_order_in_bounds_reorder(n, a, b);
    }
    if order_in_bounds_of(b, n) {
        lemma_order_in_bounds_reorder(n, b, a);
    }
    if order_distinct(a) {
        lemma_order_distinct_reorder(a, b);
    }
    if order_distinct(b) {
        lemma_order_distinct_reorder(b, a);
    }
}

/// A value that stands at two positions of `s` occurs at least twice in it.
proof fn lemma_count_two(s: Seq<HilbertPair>, j: int, k: int)
    requires
        0 <= j < k < s.len(),
        s[j] == s[k],
    ensures
        s.to_multiset().count(s[j]) >= 2,
{
    let x = s[j];
    let r = s.remove(k);
    assert(r[j] == x);
    assert(r.contains(x));
    assert(r.to_multiset() =~= s.to_multiset().remove(x));
    assert(r.to_multiset().count(x) > 0);
}

/// A value that occurs at least twice in `s` stands at a second position besides `p`.
proof fn lemma_second_position(s: Seq<HilbertPair>, p: int)
    requires
        0 <= p < s.len(),
        s.to_multiset().count(s[p]) >= 2,
    ensures
        exists|q: int| 0 <= q < s.len() && q != p && s[q] == s[p],
{
    let x = s[p];
    let r = s.remove(p);
    assert(r.to_multiset() =~= s.to_multiset().remove(x));
    assert(r.to_multiset().count(x) > 0);
    assert(r.contains(x));
    let q1 = choose|q1: int| 0 <= q1 < r.len() && r[q1] == x;
    if q1 < p {
        assert(s[q1] == x);
    } else {
        assert(s[q1 + 1] == x);
    }
}

/// Whether no two pairs name the same entity depends on the pairs as a multiset.
proof fn lemma_order_distinct_reorder(a: Seq<HilbertPair>, b: Seq<HilbertPair>)
    requires
        a.to_multiset() == b.to_multiset(),
        order_distinct(a),
    ensures
        order_distinct(b),
{
    assert forall|j: int, k: int| 0 <= j < k < b.len() implies #[trigger] pair_order(b)[j]
        != #[trigger] pair_order(b)[k] by {
        if pair_order(b)[j] == pair_order(b)[k] {
            assert(b[j].i == b[k].i);
            assert(b.contains(b[j]));
            assert(b.to_multiset().count(b[j]) > 0);
            assert(a.contains(b[j]));
            let p = choose|p: int| 0 <= p < a.len() && a[p] == b[j];
            if b[j] == b[k] {
                lemma_count_two(b, j, k);
                lemma_second_position(a, p);
            } else {
                assert(b.contains(b[k]));
                assert(b.to_multiset().count(b[k]) > 0);
                assert(a.contains(b[k]));
                let q0 = choose|q0: int| 0 <= q0 < a.len() && a[q0] == b[k];
                assert(0 <= q0 < a.len() && q0 != p && a[q0].i == a[p].i);
            }
            let q = choose|q: int| 0 <= q < a.len() && q != p && a[q].i == a[p].i;
            assert(pair_order(a)[p] == pair_order(a)[q]);
            if p < q {
                assert(pair_order(a)[p] != pair_order(a)[q]);
            } else {
                assert(pair_order(a)[q] != pair_order(a)[p]);
            }
        }
    }
}

proof fn lemma_order_in_bounds_reorder(n: int, a: Seq<HilbertPair>, b: Seq<HilbertPair>)
    requires
        a.to_multiset() == b.to_multiset(),
        order_in_bounds_of(a, n),
    ensures
        order_in_bounds_of(b, n),
{
    assert forall|k: int| 0 <= k < pair_order(b).len() implies #[trigger] pair_order(b)[k] < n by {
        assert(b.contains(b[k]));
        assert(b.to_multiset().count(b[k]) > 0);
        assert(a.contains(b[k]));
        let j = choose|j: int| 0 <= j < a.len() && a[j] == b[k];
        assert(pair_order(a)[j] == a[j].i);
    }
}

} // verus!
