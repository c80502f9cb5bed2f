use vstd::prelude::*;
use crate::types::{Node, NodeIndex};
use crate::ranges::{child_range, lemma_range_bounds, ranges_valid};
use crate::remap::way_ref_starts;
use crate::reorder::Osm;

verus! {

/// A resolved node position, in the archive's fixed-point units.
#[derive(Clone, Copy, Debug, PartialEq, Eq, Structural)]
pub struct Coord {
    pub lon: i32,
    pub lat: i32,
}

/// How a way's representative point is found.
#[derive(Clone, Copy, Debug, PartialEq, Eq, Structural)]
pub enum Shape {
    /// A closed ring: the interior point of the polygon it bounds.
    Polygon,
    /// Anything else: the interior point of the line.
    LineString,
}

/// The resolved coordinates of a way, and how its representative point is found.
pub struct WayGeometry {
    pub shape: Shape,
    pub coords: Vec<Coord>,
}

/// Whether a reference names a node of the array (is neither unresolved nor
/// outside the extract).
pub open spec fn resolves(nodes: Seq<Node>, r: NodeIndex) -> bool {
    r.value is Some && r.value->0 < nodes.len()
}

/// The position of a node.
pub open spec fn coord_of(n: Node) -> Coord {
    Coord { lon: n.lon, lat: n.lat }
}

/// The positions of the nodes that `refs` resolve to, in reference order.
pub open spec fn resolved_coords(nodes: Seq<Node>, refs: Seq<NodeIndex>) -> Seq<Coord>
    decreases refs.len(),
{
    if refs.len() == 0 {
        Seq::empty()
    } else {
        let rest = resolved_coords(nodes, refs.drop_last());
        if resolves(nodes, refs.last()) {
            rest.push(coord_of(nodes[refs.last().value->0 as int]))
        } else {
            rest
        }
    }
}

/// A closed ring has at least three points and ends where it starts.
pub open spec fn shape_of(coords: Seq<Coord>) -> Shape {
    if coords.len() >= 3 && coords[0] == coords.last() {
        Shape::Polygon
    } else {
        Shape::LineString
    }
}

/// The node references of way `i`.
pub open spec fn way_refs(archive: Osm, i: int) -> Seq<NodeIndex> {
    child_range(
        archive.nodes_index@,
        way_ref_starts(archive.ways@),
        archive.nodes_index@.len() as u64,
        i,
    )
}

/// A way none of whose references resolves has no coordinates.
pub proof fn lemma_unresolved_refs_have_no_coords(nodes: Seq<Node>, refs: Seq<NodeIndex>)
    requires
        forall|k: int| 0 <= k < refs.len() ==> !resolves(nodes, #[trigger] refs[k]),
    ensures
        resolved_coords(nodes, refs).len() == 0,
    decreases refs.len(),
{
    if refs.len() > 0 {
        let rest = refs.drop_last();
        assert forall|k: int| 0 <= k < rest.len() implies !resolves(nodes, #[trigger] rest[k]) by {
            assert(rest[k] == refs[k]);
        }
        lemma_unresolved_refs_have_no_coords(nodes, rest);
        assert(!resolves(nodes, refs[refs.len() - 1]));
    }
}

/// Picks the shape of a coordinate sequence.
pub fn classify(coords: &Vec<Coord>) -> (r: Shape)
    ensures
        r == shape_of(coords@),
{
    let n = coords.len();
    if n >= 3 && coords[0] == coords[n - 1] {
        Shape::Polygon
    } else {
        Shape::LineString
    }
}

/// Checks that the node-reference ranges of all ways are slices of the
/// reference table.
pub fn way_refs_valid(archive: &Osm) -> (r: bool)
    ensures
        r == ranges_valid(
            way_ref_starts(archive.ways@),
            archive.nodes_index@.len() as u64,
            archive.nodes_index@.len() as int,
        ),
{
    crate::remap::check_way_ref_ranges(&archive.ways, archive.nodes_index.len())
}

/// Resolves way `i` to the coordinates of its nodes, skipping references that
/// are unresolved or outside the extract. `None` when no reference resolves:
/// such a way has no location.
pub fn way_geometry(archive: &Osm, i: usize) -> (r: Option<WayGeometry>)
    requires
        i < archive.ways.len(),
        ranges_valid(
            way_ref_starts(archive.ways@),
            archive.nodes_index@.len() as u64,
            archive.nodes_index@.len() as int,
        ),
    ensures
        ({
            let coords = resolved_coords(archive.nodes@, way_refs(*archive, i as int));
            match r {
                None => coords.len() == 0,
                Some(g) => {
                    &&& coords.len() > 0
                    &&& g.coords@ == coords
                    &&& g.shape == shape_of(coords)
                },
            }
        }),
{
    let ghost starts = way_ref_starts(archive.ways@);
    let nodes = &archive.nodes;
    let table = &archive.nodes_index;
    let n = archive.ways.len();
    let table_len = table.len();
    proof {
        lemma_range_bounds(starts, table_len as u64, table_len as int, i as int);
        assert(starts[i as int] == archive.ways@[i as int].ref_first_idx);
        if i + 1 < n {
            assert(starts[i + 1] == archive.ways@[i + 1].ref_first_idx);
        }
    }
    let start = archive.ways[i].ref_first_idx as usize;
    let end = if i + 1 < n { archive.ways[i + 1].ref_first_idx as usize } else { table_len };
    let ghost refs = table@.subrange(start as int, end as int);
    assert(refs == way_refs(*archive, i as int));
    let mut coords: Vec<Coord> = Vec::new();
    let mut j: usize = start;
    while j < end
        invariant
            start <= j <= end <= table.len(),
            refs == table@.subrange(start as int, end as int),
            coords@ == resolved_coords(nodes@, table@.subrange(start as int, j as int)),
        decreases end - j,
    {
        let r = table[j];
        assert(table@.subrange(start as int, j + 1).drop_last() =~= table@.subrange(start as int, j as int));
        assert(table@.subrange(start as int, j + 1).last() == r);
        match r.value {
            Some(idx) => {
                if idx < nodes.len() as u64 {
                    let node = nodes[idx as usize];
                    coords.push(Coord { lon: node.lon, lat: node.lat });
                }
            },
            None => {},
        }
        j = j + 1;
    }
    assert(table@.subrange(start as int, end as int) == refs);
    if coords.len() == 0 {
        None
    } else {
        let shape = classify(&coords);
        Some(WayGeometry { shape, coords })
    }
}

} // verus!
