//! What a report of a tree tells: every node that a way down leads to, how long the
//! longest way is, and how many leaves there are.
use vstd::prelude::*;

use crate::id::MetadataNodeId;
use crate::metadata_records::{MetadataChild, MetadataNode, MetadataNodeKind};
use crate::tree::{children_wf, node_wf, tree_wf};
use crate::tree_report::{child_depth, child_ids, leaves_among, lemma_deepest, tree_depth, tree_ids};

verus! {

/// Whether a node has another as one of its children.
pub open spec fn has_child(node: MetadataNode, id: u128) -> bool {
    node.kind matches MetadataNodeKind::Internal { children } && exists|i: int|
        0 <= i < children@.len() && (#[trigger] children@[i]).node_id.0 == id
}

/// Whether each node of a way, but the first, is a child of the one before it.
pub open spec fn is_way(nodes: Map<u128, MetadataNode>, way: Seq<u128>) -> bool {
    &&& way.len() > 0
    &&& forall|i: int, j: int|
        0 <= i && j == i + 1 && j < way.len() ==> has_child(
            nodes[#[trigger] way[i]],
            #[trigger] way[j],
        )
}

proof fn lemma_ids_of_child(
    nodes: Map<u128, MetadataNode>,
    children: Seq<MetadataChild>,
    below: u128,
    i: int,
    id: MetadataNodeId,
)
    requires
        0 <= i < children.len(),
        children[i].node_id.0 < below,
        tree_ids(nodes, children[i].node_id.0).contains(id),
    ensures
        child_ids(nodes, children, below).contains(id),
    decreases children.len(),
{
    let shorter = children.drop_last();
    let before = child_ids(nodes, shorter, below);
    let all = child_ids(nodes, children, below);
    if i < children.len() - 1 {
        assert(shorter[i] == children[i]);
        lemma_ids_of_child(nodes, shorter, below, i, id);
        let k = before.index_of(id);
        assert(all[k] == id);
    } else {
        let own = tree_ids(nodes, children[i].node_id.0);
        let k = own.index_of(id);
        assert(children.last() == children[i]);
        assert(all[before.len() + k] == id);
    }
}

proof fn lemma_child_of_ids(
    nodes: Map<u128, MetadataNode>,
    children: Seq<MetadataChild>,
    below: u128,
    id: MetadataNodeId,
) -> (i: int)
    requires
        child_ids(nodes, children, below).contains(id),
    ensures
        0 <= i < children.len(),
        children[i].node_id.0 < below,
        tree_ids(nodes, children[i].node_id.0).contains(id),
    decreases children.len(),
{
    let all = child_ids(nodes, children, below);
    let k = all.index_of(id);
    let shorter = children.drop_last();
    let before = child_ids(nodes, shorter, below);
    if k < before.len() {
        assert(before[k] == id);
        let i = lemma_child_of_ids(nodes, shorter, below, id);
        assert(shorter[i] == children[i]);
        i
    } else {
        let own = tree_ids(nodes, children.last().node_id.0);
        assert(own[k - before.len()] == id);
        children.len() - 1
    }
}

/// A tree's nodes are told of wherever a way down from its root leads.
pub proof fn law_tree_has_what_a_way_leads_to(
    nodes: Map<u128, MetadataNode>,
    block_size: u64,
    way: Seq<u128>,
)
    requires
        tree_wf(nodes, block_size),
        is_way(nodes, way),
        nodes.contains_key(way[0]),
    ensures
        tree_ids(nodes, way[0]).contains(MetadataNodeId(way.last())),
        way.len() <= tree_depth(nodes, way[0]),
    decreases way.len(),
{
    let id = way[0];
    let all = tree_ids(nodes, id);
    assert(all[0] == MetadataNodeId(id));
    if way.len() > 1 {
        let rest = way.drop_first();
        assert(has_child(nodes[way[0]], way[1]));
        assert(node_wf(nodes, id, block_size));
        assert forall|i: int, j: int| 0 <= i && j == i + 1 && j < rest.len() implies has_child(
            nodes[#[trigger] rest[i]],
            #[trigger] rest[j],
        ) by {
            assert(rest[i] == way[i + 1]);
            assert(rest[j] == way[j + 1]);
        }
        assert(rest[0] == way[1]);
        assert(rest.last() == way.last());
        match nodes[id].kind {
            MetadataNodeKind::Internal { children } => {
                let i = choose|i: int|
                    0 <= i < children@.len() && (#[trigger] children@[i]).node_id.0 == way[1];
                assert(children_wf(nodes, children@, nodes[id].covered_range, id));
                law_tree_has_what_a_way_leads_to(nodes, block_size, rest);
                lemma_ids_of_child(nodes, children@, id, i, MetadataNodeId(way.last()));
                lemma_deepest(nodes, children@, id, i);
                let below = child_ids(nodes, children@, id);
                let k = below.index_of(MetadataNodeId(way.last()));
                assert(all[k + 1] == MetadataNodeId(way.last()));
            },
            MetadataNodeKind::Leaf { .. } => {},
        }
    }
}

/// To each node that a tree tells of a way leads down from its root.
pub proof fn law_way_leads_to_each_node(
    nodes: Map<u128, MetadataNode>,
    root: u128,
    id: MetadataNodeId,
) -> (way: Seq<u128>)
    requires
        tree_ids(nodes, root).contains(id),
    ensures
        is_way(nodes, way),
        way[0] == root,
        way.last() == id.0,
    decreases root,
{
    if id.0 == root {
        seq![root]
    } else {
        let all = tree_ids(nodes, root);
        let k = all.index_of(id);
        match nodes[root].kind {
            MetadataNodeKind::Internal { children } => {
                let below = child_ids(nodes, children@, root);
                assert(below[k - 1] == id);
                let i = lemma_child_of_ids(nodes, children@, root, id);
                let rest = law_way_leads_to_each_node(nodes, children@[i].node_id.0, id);
                let way = seq![root] + rest;
                assert forall|a: int, b: int| 0 <= a && b == a + 1 && b < way.len() implies
                    has_child(nodes[#[trigger] way[a]], #[trigger] way[b]) by {
                    if a == 0 {
                        assert(way[b] == children@[i].node_id.0);
                    } else {
                        assert(way[a] == rest[a - 1]);
                        assert(way[b] == rest[b - 1]);
                    }
                }
                assert(way.last() == rest.last());
                way
            },
            MetadataNodeKind::Leaf { .. } => seq![root],
        }
    }
}

proof fn lemma_deepest_child(
    nodes: Map<u128, MetadataNode>,
    children: Seq<MetadataChild>,
    below: u128,
) -> (i: int)
    requires
        child_depth(nodes, children, below) > 0,
    ensures
        0 <= i < children.len(),
        children[i].node_id.0 < below,
        tree_depth(nodes, children[i].node_id.0) == child_depth(nodes, children, below),
    decreases children.len(),
{
    let shorter = children.drop_last();
    let before = child_depth(nodes, shorter, below);
    if children.last().node_id.0 < below && before < tree_depth(
        nodes,
        children.last().node_id.0,
    ) {
        children.len() - 1
    } else {
        let i = lemma_deepest_child(nodes, shorter, below);
        assert(shorter[i] == children[i]);
        i
    }
}

/// A tree is as deep as some way down from its root is long; by the law above no way
/// is longer.
pub proof fn law_some_way_is_as_long_as_the_depth(
    nodes: Map<u128, MetadataNode>,
    root: u128,
) -> (way: Seq<u128>)
    ensures
        is_way(nodes, way),
        way[0] == root,
        way.len() == tree_depth(nodes, root),
    decreases root,
{
    match nodes[root].kind {
        MetadataNodeKind::Internal { children } => {
            if child_depth(nodes, children@, root) > 0 {
                let i = lemma_deepest_child(nodes, children@, root);
                let rest = law_some_way_is_as_long_as_the_depth(nodes, children@[i].node_id.0);
                let way = seq![root] + rest;
                assert forall|a: int, b: int| 0 <= a && b == a + 1 && b < way.len() implies
                    has_child(nodes[#[trigger] way[a]], #[trigger] way[b]) by {
                    if a == 0 {
                        assert(way[b] == children@[i].node_id.0);
                    } else {
                        assert(way[a] == rest[a - 1]);
                        assert(way[b] == rest[b - 1]);
                    }
                }
                way
            } else {
                seq![root]
            }
        },
        MetadataNodeKind::Leaf { .. } => seq![root],
    }
}

/// Of some nodes those are counted that are leaves.
pub proof fn law_leaves_are_counted(nodes: Map<u128, MetadataNode>, ids: Seq<MetadataNodeId>)
    ensures
        leaves_among(nodes, ids) == ids.filter(
            |id: MetadataNodeId| nodes[id.0].kind is Leaf,
        ).len(),
    decreases ids.len(),
{
    reveal(Seq::filter);
    if ids.len() > 0 {
        law_leaves_are_counted(nodes, ids.drop_last());
    }
}

} // verus!
