use vstd::prelude::*;
use crate::types::{HilbertPair, Node, NodeIndex, TagIndex, Way};
use crate::ranges::{
    child_range, index_len_sum, lemma_permuted_ranges_total, range_len_sum, ranges_valid,
};
use crate::remap::{
    lemma_distinct_order, lemma_node_remap_tiles, lemma_way_remap_tiles, node_remap_error, node_tag_starts,
    node_tags_gathered, nodes_relocated, pair_order, remap_nodes, remap_ways, way_ref_starts,
    way_refs_gathered, way_remap_error, way_tag_starts, way_tags_gathered, ways_relocated,
    RemapError,
};
use crate::sort::{lemma_remap_error_reorder, par_sort_by_key, sorted_by_key};

verus! {

/// The contents of an archive that a reordering run reads.
///
/// Child ranges are implicit: an entity's range runs from its own start field
/// to the next entity's. The last node's tag range ends at `node_tags_end` and
/// the last way's at `way_tags_end`; the last way's reference range ends at the
/// end of `nodes_index`.
pub struct Osm {
    pub nodes: Vec<Node>,
    pub node_tags_end: u64,
    pub ways: Vec<Way>,
    pub way_tags_end: u64,
    pub tags_index: Vec<TagIndex>,
    pub nodes_index: Vec<NodeIndex>,
}

/// What a reordering run writes: the entities in key order, the index tables
/// rebuilt in that order, and the sorted pairs.
pub struct SortedOsm {
    pub nodes: Vec<Node>,
    pub ways: Vec<Way>,
    pub tags_index: Vec<TagIndex>,
    pub nodes_index: Vec<NodeIndex>,
    pub node_pairs: Vec<HilbertPair>,
    pub way_pairs: Vec<HilbertPair>,
}

/// Why a reordering run stopped.
#[derive(Clone, Copy, Debug, PartialEq, Eq, Structural)]
pub enum ProcessError {
    /// No precomputed node keys were supplied.
    NoNodePairs,
    /// The nodes, their tag ranges or their pairs are inconsistent.
    Nodes(RemapError),
    /// The ways, their ranges or their pairs are inconsistent.
    Ways(RemapError),
}

/// The error a run ends with, if any, checked in this order: node keys
/// present, nodes consistent, ways consistent.
pub open spec fn process_error(
    archive: Osm,
    node_pairs: Seq<HilbertPair>,
    way_pairs: Seq<HilbertPair>,
) -> Option<ProcessError> {
    if node_pairs.len() == 0 {
        Some(ProcessError::NoNodePairs)
    } else if let Some(e) = node_remap_error(
        archive.nodes@,
        archive.tags_index@,
        archive.node_tags_end,
        node_pairs,
    ) {
        Some(ProcessError::Nodes(e))
    } else if let Some(e) = way_remap_error(
        archive.ways@,
        archive.tags_index@,
        archive.way_tags_end,
        archive.nodes_index@,
        way_pairs,
    ) {
        Some(ProcessError::Ways(e))
    } else {
        None
    }
}

/// The rebuilt tables of a run are tiled by the sorted entities: the nodes'
/// tag ranges cover the first `node_tags` entries of the tag table from 0,
/// the ways' tag ranges the rest, and the ways' reference ranges the whole
/// reference table from 0; consecutive ranges abut, starts never decrease,
/// and each sorted entity's range holds exactly the entries that the entity
/// it was copied from owned. As every entity is copied once, each table is as
/// long as the ranges of its entities span, summed in index order.
pub open spec fn sorted_tables_tiled(archive: Osm, s: SortedOsm, node_tags: nat) -> bool {
    let tags = s.tags_index@;
    let refs = s.nodes_index@;
    let node_order = pair_order(s.node_pairs@);
    let way_order = pair_order(s.way_pairs@);
    &&& node_tags == range_len_sum(
        node_tag_starts(archive.nodes@),
        archive.node_tags_end,
        node_order,
    )
    &&& tags.len() == node_tags + range_len_sum(
        way_tag_starts(archive.ways@),
        archive.way_tags_end,
        way_order,
    )
    &&& refs.len() == range_len_sum(
        way_ref_starts(archive.ways@),
        archive.nodes_index@.len() as u64,
        way_order,
    )
    &&& node_tags == index_len_sum(
        node_tag_starts(archive.nodes@),
        archive.node_tags_end,
        archive.nodes@.len() as int,
    )
    &&& tags.len() == node_tags + index_len_sum(
        way_tag_starts(archive.ways@),
        archive.way_tags_end,
        archive.ways@.len() as int,
    )
    &&& refs.len() == index_len_sum(
        way_ref_starts(archive.ways@),
        archive.nodes_index@.len() as u64,
        archive.ways@.len() as int,
    )
    &&& archive.nodes@.len() > 0 ==> node_tags == archive.node_tags_end
        - archive.nodes@[0].tag_first_idx
    &&& archive.ways@.len() > 0 ==> tags.len() == node_tags + archive.way_tags_end
        - archive.ways@[0].tag_first_idx && refs.len() == archive.nodes_index@.len()
        - archive.ways@[0].ref_first_idx
    &&& ranges_valid(node_tag_starts(s.nodes@), node_tags as u64, node_tags as int)
    &&& ranges_valid(way_tag_starts(s.ways@), tags.len() as u64, tags.len() as int)
    &&& ranges_valid(way_ref_starts(s.ways@), refs.len() as u64, refs.len() as int)
    &&& s.nodes@.len() > 0 ==> s.nodes@[0].tag_first_idx == 0
    &&& s.ways@.len() > 0 ==> s.ways@[0].tag_first_idx == node_tags && s.ways@[0].ref_first_idx == 0
    &&& forall|j: int, k: int|
        0 <= j <= k < s.nodes@.len() ==> #[trigger] s.nodes@[j].tag_first_idx
            <= #[trigger] s.nodes@[k].tag_first_idx
    &&& forall|j: int, k: int|
        0 <= j <= k < s.ways@.len() ==> #[trigger] s.ways@[j].tag_first_idx
            <= #[trigger] s.ways@[k].tag_first_idx && s.ways@[j].ref_first_idx
            <= s.ways@[k].ref_first_idx
    &&& forall|k: int|
        0 <= k < s.nodes@.len() ==> #[trigger] child_range(
            tags.take(node_tags as int),
            node_tag_starts(s.nodes@),
            node_tags as u64,
            k,
        ) == child_range(
            archive.tags_index@,
            node_tag_starts(archive.nodes@),
            archive.node_tags_end,
            node_order[k] as int,
        )
    &&& forall|k: int|
        0 <= k < s.ways@.len() ==> #[trigger] child_range(
            tags,
            way_tag_starts(s.ways@),
            tags.len() as u64,
            k,
        ) == child_range(
            archive.tags_index@,
            way_tag_starts(archive.ways@),
            archive.way_tags_end,
            way_order[k] as int,
        )
    &&& forall|k: int|
        0 <= k < s.ways@.len() ==> #[trigger] child_range(
            refs,
            way_ref_starts(s.ways@),
            refs.len() as u64,
            k,
        ) == child_range(
            archive.nodes_index@,
            way_ref_starts(archive.ways@),
            archive.nodes_index@.len() as u64,
            way_order[k] as int,
        )
}

/// Reorders an archive by Hilbert key.
///
/// Sorts the node pairs and the way pairs by key, then rewrites the nodes and
/// the ways in that order. The tag table is rebuilt with the nodes' tags
/// first, then the ways'; the node-reference table with the ways' references.
pub fn process(
    archive: &Osm,
    node_pairs: Vec<HilbertPair>,
    way_pairs: Vec<HilbertPair>,
) -> (r: Result<SortedOsm, ProcessError>)
    ensures
        match r {
            Err(e) => process_error(*archive, node_pairs@, way_pairs@) == Some(e),
            Ok(s) => {
                let node_tags = node_tags_gathered(
                    archive.nodes@,
                    archive.tags_index@,
                    archive.node_tags_end,
                    s.node_pairs@,
                );
                &&& process_error(*archive, node_pairs@, way_pairs@) is None
                &&& s.node_pairs@.to_multiset() == node_pairs@.to_multiset()
                &&& sorted_by_key(s.node_pairs@)
                &&& s.way_pairs@.to_multiset() == way_pairs@.to_multiset()
                &&& sorted_by_key(s.way_pairs@)
                &&& nodes_relocated(
                    archive.nodes@,
                    archive.tags_index@,
                    archive.node_tags_end,
                    s.node_pairs@,
                    0,
                    s.nodes@,
                )
                &&& ways_relocated(
                    archive.ways@,
                    archive.tags_index@,
                    archive.way_tags_end,
                    archive.nodes_index@,
                    s.way_pairs@,
                    node_tags.len(),
                    0,
                    s.ways@,
                )
                &&& s.tags_index@ == node_tags + way_tags_gathered(
                    archive.ways@,
                    archive.tags_index@,
                    archive.way_tags_end,
                    s.way_pairs@,
                )
                &&& s.nodes_index@ == way_refs_gathered(
                    archive.ways@,
                    archive.nodes_index@,
                    s.way_pairs@,
                )
                &&& sorted_tables_tiled(*archive, s, node_tags.len())
            },
        },
{
    if node_pairs.len() == 0 {
        return Err(ProcessError::NoNodePairs);
    }
    let ghost old_node_pairs = node_pairs@;
    let ghost old_way_pairs = way_pairs@;
    let mut node_pairs = node_pairs;
    let mut way_pairs = way_pairs;
    par_sort_by_key(&mut node_pairs);
    par_sort_by_key(&mut way_pairs);
    proof {
        lemma_remap_error_reorder(
            archive.nodes@.len() as int,
            old_node_pairs,
            node_pairs@,
            crate::ranges::ranges_valid(
                crate::remap::node_tag_starts(archive.nodes@),
                archive.node_tags_end,
                archive.tags_index@.len() as int,
            ),
        );
        lemma_remap_error_reorder(
            archive.ways@.len() as int,
            old_way_pairs,
            way_pairs@,
            crate::ranges::ranges_valid(
                crate::remap::way_tag_starts(archive.ways@),
                archive.way_tags_end,
                archive.tags_index@.len() as int,
            ) && crate::ranges::ranges_valid(
                crate::remap::way_ref_starts(archive.ways@),
                archive.nodes_index@.len() as u64,
                archive.nodes_index@.len() as int,
            ),
        );
    }
    let mut tags_index: Vec<TagIndex> = Vec::new();
    let nodes = match remap_nodes(
        &archive.nodes,
        &archive.tags_index,
        archive.node_tags_end,
        &node_pairs,
        &mut tags_index,
    ) {
        Err(e) => {
            return Err(ProcessError::Nodes(e));
        },
        Ok(nodes) => nodes,
    };
    let ghost node_tags = tags_index@;
    assert(node_tags =~= Seq::<TagIndex>::empty() + node_tags_gathered(
        archive.nodes@,
        archive.tags_index@,
        archive.node_tags_end,
        node_pairs@,
    ));
    let mut nodes_index: Vec<NodeIndex> = Vec::new();
    let ways = match remap_ways(
        &archive.ways,
        &archive.tags_index,
        archive.way_tags_end,
        &archive.nodes_index,
        &way_pairs,
        &mut tags_index,
        &mut nodes_index,
    ) {
        Err(e) => {
            return Err(ProcessError::Ways(e));
        },
        Ok(ways) => ways,
    };
    assert(nodes_index@ =~= way_refs_gathered(archive.ways@, archive.nodes_index@, way_pairs@));
    let tag_count = tags_index.len();
    let ref_count = nodes_index.len();
    let source_ref_count = archive.nodes_index.len();
    assert(tag_count <= u64::MAX && ref_count <= u64::MAX && source_ref_count <= u64::MAX);
    let sorted = SortedOsm { nodes, ways, tags_index, nodes_index, node_pairs, way_pairs };
    proof {
        lemma_run_tiles(*archive, sorted, node_tags);
    }
    Ok(sorted)
}

/// The tables that `process` rebuilds are tiled by the sorted entities.
#[verifier::rlimit(80)]
proof fn lemma_run_tiles(archive: Osm, s: SortedOsm, node_tags: Seq<TagIndex>)
    requires
        node_remap_error(
            archive.nodes@,
            archive.tags_index@,
            archive.node_tags_end,
            s.node_pairs@,
        ) is None,
        way_remap_error(
            archive.ways@,
            archive.tags_index@,
            archive.way_tags_end,
            archive.nodes_index@,
            s.way_pairs@,
        ) is None,
        nodes_relocated(
            archive.nodes@,
            archive.tags_index@,
            archive.node_tags_end,
            s.node_pairs@,
            0,
            s.nodes@,
        ),
        node_tags == node_tags_gathered(
            archive.nodes@,
            archive.tags_index@,
            archive.node_tags_end,
            s.node_pairs@,
        ),
        ways_relocated(
            archive.ways@,
            archive.tags_index@,
            archive.way_tags_end,
            archive.nodes_index@,
            s.way_pairs@,
            node_tags.len(),
            0,
            s.ways@,
        ),
        s.tags_index@ == node_tags + way_tags_gathered(
            archive.ways@,
            archive.tags_index@,
            archive.way_tags_end,
            s.way_pairs@,
        ),
        s.nodes_index@ == way_refs_gathered(archive.ways@, archive.nodes_index@, s.way_pairs@),
        s.tags_index@.len() <= u64::MAX,
        s.nodes_index@.len() <= u64::MAX,
        archive.nodes_index@.len() <= u64::MAX,
    ensures
        sorted_tables_tiled(archive, s, node_tags.len()),
{
    let tags = s.tags_index@;
    assert(node_tags =~= Seq::<TagIndex>::empty() + node_tags_gathered(
        archive.nodes@,
        archive.tags_index@,
        archive.node_tags_end,
        s.node_pairs@,
    ));
    assert(tags.take(node_tags.len() as int) =~= node_tags);
    lemma_node_remap_tiles(
        archive.nodes@,
        archive.tags_index@,
        archive.node_tags_end,
        s.node_pairs@,
        Seq::empty(),
        s.nodes@,
        node_tags,
    );
    assert(s.nodes_index@ =~= Seq::<NodeIndex>::empty() + way_refs_gathered(
        archive.ways@,
        archive.nodes_index@,
        s.way_pairs@,
    ));
    lemma_way_remap_tiles(
        archive.ways@,
        archive.tags_index@,
        archive.way_tags_end,
        archive.nodes_index@,
        s.way_pairs@,
        node_tags,
        Seq::empty(),
        s.ways@,
        tags,
        s.nodes_index@,
    );
    lemma_distinct_order(s.node_pairs@);
    lemma_distinct_order(s.way_pairs@);
    lemma_permuted_ranges_total(
        node_tag_starts(archive.nodes@),
        archive.node_tags_end,
        pair_order(s.node_pairs@),
    );
    lemma_permuted_ranges_total(
        way_tag_starts(archive.ways@),
        archive.way_tags_end,
        pair_order(s.way_pairs@),
    );
    lemma_permuted_ranges_total(
        way_ref_starts(archive.ways@),
        archive.nodes_index@.len() as u64,
        pair_order(s.way_pairs@),
    );
    assert(archive.nodes@.len() > 0 ==> node_tag_starts(archive.nodes@)[0]
        == archive.nodes@[0].tag_first_idx);
    assert(archive.ways@.len() > 0 ==> way_tag_starts(archive.ways@)[0]
        == archive.ways@[0].tag_first_idx);
    assert(archive.ways@.len() > 0 ==> way_ref_starts(archive.ways@)[0]
        == archive.ways@[0].ref_first_idx);
    let nt = node_tags.len();
    let refs = s.nodes_index@;
    let node_order = pair_order(s.node_pairs@);
    let way_order = pair_order(s.way_pairs@);
    assert(nt == index_len_sum(
        node_tag_starts(archive.nodes@),
        archive.node_tags_end,
        archive.nodes@.len() as int,
    ));
    assert(archive.nodes@.len() > 0 ==> nt == archive.node_tags_end
        - archive.nodes@[0].tag_first_idx);
    assert(archive.ways@.len() > 0 ==> tags.len() == nt + archive.way_tags_end
        - archive.ways@[0].tag_first_idx);
    assert(archive.ways@.len() > 0 ==> refs.len() == archive.nodes_index@.len()
        - archive.ways@[0].ref_first_idx);
    assert(s.nodes@.len() > 0 ==> s.nodes@[0].tag_first_idx == 0);
    assert(s.ways@.len() > 0 ==> s.ways@[0].tag_first_idx == nt && s.ways@[0].ref_first_idx == 0);
    assert forall|k: int| 0 <= k < s.nodes@.len() implies #[trigger] child_range(
        tags.take(nt as int),
        node_tag_starts(s.nodes@),
        nt as u64,
        k,
    ) == child_range(
        archive.tags_index@,
        node_tag_starts(archive.nodes@),
        archive.node_tags_end,
        node_order[k] as int,
    ) by {
        assert(child_range(node_tags, node_tag_starts(s.nodes@), node_tags.len() as u64, k)
            == child_range(
            archive.tags_index@,
            node_tag_starts(archive.nodes@),
            archive.node_tags_end,
            node_order[k] as int,
        ));
    }
}

} // verus!
