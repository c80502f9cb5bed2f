use osmflat_hilbert::remap::RemapError;
use osmflat_hilbert::reorder::{process, Osm, ProcessError, SortedOsm};
use osmflat_hilbert::types::{HilbertPair, Node, NodeIndex, TagIndex, Way};

fn node(id: i64, tag_first_idx: u64) -> Node {
    Node { id, lat: (id as i32) * 10, lon: (id as i32) * -10, tag_first_idx }
}

fn way(id: i64, tag_first_idx: u64, ref_first_idx: u64) -> Way {
    Way { id, tag_first_idx, ref_first_idx }
}

fn tag(v: u64) -> TagIndex {
    TagIndex { value: v }
}

fn r(v: Option<u64>) -> NodeIndex {
    NodeIndex { value: v }
}

fn pair(i: u64, h: u64) -> HilbertPair {
    HilbertPair { i, h }
}

const A: u64 = 100;
const B: u64 = 101;
const C: u64 = 102;

fn three_nodes() -> Osm {
    Osm {
        nodes: vec![node(0, 0), node(1, 2), node(2, 3)],
        node_tags_end: 3,
        ways: vec![],
        way_tags_end: 3,
        tags_index: vec![tag(A), tag(B), tag(C)],
        nodes_index: vec![],
    }
}

fn run_three_nodes() -> SortedOsm {
    let pairs = vec![pair(0, 20), pair(1, 30), pair(2, 10)];
    process(&three_nodes(), pairs, vec![]).unwrap()
}

#[test]
fn end_to_end_three_nodes() {
    let s = run_three_nodes();
    assert_eq!(s.node_pairs, vec![pair(2, 10), pair(0, 20), pair(1, 30)]);
    assert_eq!(s.nodes, vec![node(2, 0), node(0, 0), node(1, 2)]);
    assert_eq!(s.tags_index, vec![tag(A), tag(B), tag(C)]);
    assert!(s.ways.is_empty());
    assert!(s.nodes_index.is_empty());
}

#[test]
fn end_to_end_node_tag_ranges() {
    let s = run_three_nodes();
    // slot 0 (node 2) owns [0, 0), slot 1 (node 0) owns [0, 2), slot 2 (node 1) owns [2, 3)
    let starts: Vec<u64> = s.nodes.iter().map(|n| n.tag_first_idx).collect();
    assert_eq!(starts, vec![0, 0, 2]);
    assert_eq!(&s.tags_index[0..2], &[tag(A), tag(B)]);
    assert_eq!(&s.tags_index[2..3], &[tag(C)]);
}

fn mixed_archive() -> Osm {
    // node tags: n0 [0,1) n1 [1,1) ; way tags: w0 [1,3) w1 [3,4) w2 [4,4)
    // refs: w0 [0,2) w1 [2,2) w2 [2,5)
    Osm {
        nodes: vec![node(0, 0), node(1, 1)],
        node_tags_end: 1,
        ways: vec![way(10, 1, 0), way(11, 3, 2), way(12, 4, 2)],
        way_tags_end: 4,
        tags_index: vec![tag(1), tag(2), tag(3), tag(4), tag(99)],
        nodes_index: vec![r(Some(0)), r(Some(1)), r(None), r(Some(1)), r(Some(0))],
    }
}

#[test]
fn ways_are_permuted_with_both_tables() {
    let node_pairs = vec![pair(1, 5), pair(0, 9)];
    let way_pairs = vec![pair(0, 7), pair(1, 3), pair(2, 5)];
    let s = process(&mixed_archive(), node_pairs, way_pairs).unwrap();
    assert_eq!(s.nodes, vec![node(1, 0), node(0, 0)]);
    assert_eq!(s.way_pairs, vec![pair(1, 3), pair(2, 5), pair(0, 7)]);
    // node tags first (n1 none, n0 [1]), then way tags (w1 [4], w2 none, w0 [2,3])
    assert_eq!(s.tags_index, vec![tag(1), tag(4), tag(2), tag(3)]);
    assert_eq!(s.ways, vec![way(11, 1, 0), way(12, 2, 0), way(10, 2, 3)]);
    assert_eq!(
        s.nodes_index,
        vec![r(None), r(Some(1)), r(Some(0)), r(Some(0)), r(Some(1))]
    );
}

#[test]
fn sorted_lengths_match_inputs() {
    let archive = mixed_archive();
    let s = process(&archive, vec![pair(1, 5), pair(0, 9)], vec![pair(0, 7), pair(1, 3), pair(2, 5)])
        .unwrap();
    assert_eq!(s.nodes.len(), archive.nodes.len());
    assert_eq!(s.ways.len(), archive.ways.len());
    // relation tags after the ways' range are not copied
    assert_eq!(s.tags_index.len(), 4);
    assert_eq!(s.nodes_index.len(), archive.nodes_index.len());
}

#[test]
fn sorted_fields_kept_but_range_starts() {
    let archive = mixed_archive();
    let s = process(&archive, vec![pair(1, 5), pair(0, 9)], vec![pair(0, 7), pair(1, 3), pair(2, 5)])
        .unwrap();
    for (k, p) in s.way_pairs.iter().enumerate() {
        let w = archive.ways[p.i as usize];
        assert_eq!(s.ways[k].id, w.id);
    }
    for (k, p) in s.node_pairs.iter().enumerate() {
        let n = archive.nodes[p.i as usize];
        assert_eq!((s.nodes[k].id, s.nodes[k].lat, s.nodes[k].lon), (n.id, n.lat, n.lon));
    }
}

#[test]
fn sorted_ranges_are_contiguous_and_monotonic() {
    let s = process(
        &mixed_archive(),
        vec![pair(1, 5), pair(0, 9)],
        vec![pair(0, 7), pair(1, 3), pair(2, 5)],
    )
    .unwrap();
    let mut total = 0;
    for k in 0..s.ways.len() {
        let end = if k + 1 < s.ways.len() { s.ways[k + 1].ref_first_idx } else { s.nodes_index.len() as u64 };
        assert!(s.ways[k].ref_first_idx <= end);
        total += end - s.ways[k].ref_first_idx;
    }
    assert_eq!(s.ways[0].ref_first_idx, 0);
    assert_eq!(total, s.nodes_index.len() as u64);
}

#[test]
fn sorted_pair_keys_non_decreasing() {
    let pairs = vec![pair(0, 9), pair(1, 9), pair(2, 1), pair(3, 4)];
    let archive = Osm {
        nodes: vec![node(0, 0), node(1, 0), node(2, 0), node(3, 0)],
        node_tags_end: 0,
        ways: vec![],
        way_tags_end: 0,
        tags_index: vec![],
        nodes_index: vec![],
    };
    let s = process(&archive, pairs, vec![]).unwrap();
    let keys: Vec<u64> = s.node_pairs.iter().map(|p| p.h).collect();
    assert_eq!(keys, vec![1, 4, 9, 9]);
    assert_eq!(s.node_pairs[0].i, 2);
    assert_eq!(s.node_pairs[1].i, 3);
}

#[test]
fn missing_node_pairs_fail() {
    assert_eq!(process(&three_nodes(), vec![], vec![]).err(), Some(ProcessError::NoNodePairs));
}

#[test]
fn node_pair_count_mismatch_fails() {
    let e = process(&three_nodes(), vec![pair(0, 1)], vec![]).err();
    assert_eq!(e, Some(ProcessError::Nodes(RemapError::PairCountMismatch)));
}

#[test]
fn node_pair_out_of_range_fails() {
    let e = process(&three_nodes(), vec![pair(0, 1), pair(1, 2), pair(3, 0)], vec![]).err();
    assert_eq!(e, Some(ProcessError::Nodes(RemapError::PairOutOfRange)));
}

#[test]
fn node_ranges_out_of_order_fail() {
    let mut archive = three_nodes();
    archive.nodes[1].tag_first_idx = 3;
    archive.nodes[2].tag_first_idx = 1;
    let e = process(&archive, vec![pair(0, 1), pair(1, 2), pair(2, 0)], vec![]).err();
    assert_eq!(e, Some(ProcessError::Nodes(RemapError::InvalidRanges)));
}

#[test]
fn node_tags_end_past_table_fails() {
    let mut archive = three_nodes();
    archive.node_tags_end = 4;
    let e = process(&archive, vec![pair(0, 1), pair(1, 2), pair(2, 0)], vec![]).err();
    assert_eq!(e, Some(ProcessError::Nodes(RemapError::InvalidRanges)));
}

#[test]
fn way_ref_range_past_table_fails() {
    let mut archive = mixed_archive();
    archive.ways[2].ref_first_idx = 6;
    let e = process(&archive, vec![pair(0, 1), pair(1, 2)], vec![pair(0, 1), pair(1, 2), pair(2, 3)]).err();
    assert_eq!(e, Some(ProcessError::Ways(RemapError::InvalidRanges)));
}

#[test]
fn way_pair_count_mismatch_fails() {
    let e = process(&mixed_archive(), vec![pair(0, 1), pair(1, 2)], vec![pair(0, 1)]).err();
    assert_eq!(e, Some(ProcessError::Ways(RemapError::PairCountMismatch)));
}

#[test]
fn duplicate_node_pairs_fail() {
    let archive = Osm {
        nodes: vec![node(0, 0), node(1, 2)],
        node_tags_end: 3,
        ways: vec![],
        way_tags_end: 3,
        tags_index: vec![tag(A), tag(B), tag(C)],
        nodes_index: vec![],
    };
    let e = process(&archive, vec![pair(0, 5), pair(0, 6)], vec![]).err();
    assert_eq!(e, Some(ProcessError::Nodes(RemapError::DuplicatePair)));
}

#[test]
fn duplicate_way_pairs_fail() {
    let e = process(
        &mixed_archive(),
        vec![pair(0, 1), pair(1, 2)],
        vec![pair(2, 1), pair(1, 2), pair(2, 3)],
    )
    .err();
    assert_eq!(e, Some(ProcessError::Ways(RemapError::DuplicatePair)));
}

#[test]
fn sorted_tables_span_source_ranges() {
    let archive = mixed_archive();
    let s = process(&archive, vec![pair(1, 5), pair(0, 9)], vec![pair(0, 7), pair(1, 3), pair(2, 5)])
        .unwrap();
    let node_tags = s.ways[0].tag_first_idx;
    assert_eq!(node_tags, archive.node_tags_end - archive.nodes[0].tag_first_idx);
    assert_eq!(
        s.tags_index.len() as u64,
        node_tags + archive.way_tags_end - archive.ways[0].tag_first_idx
    );
    assert_eq!(
        s.nodes_index.len() as u64,
        archive.nodes_index.len() as u64 - archive.ways[0].ref_first_idx
    );
    let way_tag_starts: Vec<u64> = s.ways.iter().map(|w| w.tag_first_idx).collect();
    assert_eq!(way_tag_starts, vec![1, 2, 2]);
}
