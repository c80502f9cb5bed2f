use vstd::prelude::*;

verus! {

/// A point entity: fixed-point coordinates and the start of its tag range.
#[derive(Clone, Copy, Debug, PartialEq, Eq, Structural)]
pub struct Node {
    pub id: i64,
    pub lat: i32,
    pub lon: i32,
    pub tag_first_idx: u64,
}

/// A polyline or polygon entity: the starts of its tag and node-reference ranges.
#[derive(Clone, Copy, Debug, PartialEq, Eq, Structural)]
pub struct Way {
    pub id: i64,
    pub tag_first_idx: u64,
    pub ref_first_idx: u64,
}

/// One reference from an entity to a tag.
#[derive(Clone, Copy, Debug, PartialEq, Eq, Structural)]
pub struct TagIndex {
    pub value: u64,
}

/// One reference from a way to a node; `None` when the node lies outside the extract.
#[derive(Clone, Copy, Debug, PartialEq, Eq, Structural)]
pub struct NodeIndex {
    pub value: Option<u64>,
}

/// Sort record of one entity: its index in the unsorted array and its Hilbert key.
#[derive(Clone, Copy, Debug, PartialEq, Eq, Structural)]
pub struct HilbertPair {
    pub i: u64,
    pub h: u64,
}

} // verus!
