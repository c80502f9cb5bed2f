use osmflat_hilbert::remap::{remap_nodes, remap_ways, RemapError};
use osmflat_hilbert::types::{HilbertPair, Node, NodeIndex, TagIndex, Way};

fn n(id: i64, t: u64) -> Node {
    Node { id, lat: 1, lon: 2, tag_first_idx: t }
}

fn t(v: u64) -> TagIndex {
    TagIndex { value: v }
}

#[test]
fn remap_nodes_appends_after_existing_tags() {
    let nodes = vec![n(0, 0), n(1, 1)];
    let tags = vec![t(7), t(8), t(9)];
    let pairs = vec![HilbertPair { i: 1, h: 0 }, HilbertPair { i: 0, h: 1 }];
    let mut out = vec![t(1), t(2)];
    let sorted = remap_nodes(&nodes, &tags, 3, &pairs, &mut out).unwrap();
    assert_eq!(sorted, vec![n(1, 2), n(0, 4)]);
    assert_eq!(out, vec![t(1), t(2), t(8), t(9), t(7)]);
}

#[test]
fn remap_nodes_skips_tags_before_first_range() {
    let nodes = vec![n(0, 1), n(1, 2)];
    let tags = vec![t(7), t(8), t(9)];
    let pairs = vec![HilbertPair { i: 0, h: 0 }, HilbertPair { i: 1, h: 1 }];
    let mut out = vec![];
    let sorted = remap_nodes(&nodes, &tags, 3, &pairs, &mut out).unwrap();
    assert_eq!(sorted, vec![n(0, 0), n(1, 1)]);
    assert_eq!(out, vec![t(8), t(9)]);
}

#[test]
fn remap_nodes_error_leaves_table_unchanged() {
    let nodes = vec![n(0, 0), n(1, 1)];
    let tags = vec![t(7)];
    let pairs = vec![HilbertPair { i: 1, h: 0 }, HilbertPair { i: 0, h: 1 }];
    let mut out = vec![t(1)];
    assert_eq!(remap_nodes(&nodes, &tags, 2, &pairs, &mut out), Err(RemapError::InvalidRanges));
    assert_eq!(out, vec![t(1)]);
}

#[test]
fn remap_ways_out_of_range_pair() {
    let ways = vec![Way { id: 5, tag_first_idx: 0, ref_first_idx: 0 }];
    let refs = vec![NodeIndex { value: Some(3) }];
    let pairs = vec![HilbertPair { i: 1, h: 0 }];
    let mut out_tags = vec![];
    let mut out_refs = vec![];
    let r = remap_ways(&ways, &vec![], 0, &refs, &pairs, &mut out_tags, &mut out_refs);
    assert_eq!(r, Err(RemapError::PairOutOfRange));
    assert!(out_tags.is_empty() && out_refs.is_empty());
}

#[test]
fn remap_ways_duplicate_pair_fails() {
    let ways = vec![
        Way { id: 5, tag_first_idx: 0, ref_first_idx: 0 },
        Way { id: 6, tag_first_idx: 1, ref_first_idx: 2 },
    ];
    let tags = vec![t(1), t(2)];
    let refs = vec![NodeIndex { value: Some(3) }, NodeIndex { value: None }, NodeIndex { value: Some(4) }];
    let pairs = vec![HilbertPair { i: 0, h: 0 }, HilbertPair { i: 0, h: 0 }];
    let mut out_tags = vec![t(9)];
    let mut out_refs = vec![];
    let r = remap_ways(&ways, &tags, 2, &refs, &pairs, &mut out_tags, &mut out_refs);
    assert_eq!(r, Err(RemapError::DuplicatePair));
    assert_eq!(out_tags, vec![t(9)]);
    assert!(out_refs.is_empty());
}

#[test]
fn remap_nodes_duplicate_pair_fails() {
    let nodes = vec![n(0, 0), n(1, 2)];
    let tags = vec![t(7), t(8), t(9)];
    let pairs = vec![HilbertPair { i: 0, h: 5 }, HilbertPair { i: 0, h: 6 }];
    let mut out = vec![];
    assert_eq!(remap_nodes(&nodes, &tags, 3, &pairs, &mut out), Err(RemapError::DuplicatePair));
    assert!(out.is_empty());
}
