//! New metadata trees that hold nothing yet.
use vstd::prelude::*;

use crate::block_api::BlockRange;
use crate::error::StorageError;
use crate::id::{BlockCount, BlockIndex, MetadataNodeId};
use crate::metadata_records::{
    LeafEntry, MetadataChild, MetadataNode, MetadataNodeKind, RunBackedFileExtent,
};
use crate::tree::{
    block_at, child_index, children_tile, children_wf, has_child_at, keeps_nodes,
    law_trees_are_immutable, node_wf, run_at, TreeStore,
};
use crate::tree_edit::lemma_mul_le;

verus! {

/// Whether a tree covers `range` and holds nothing.
pub open spec fn is_empty_tree(
    nodes: Map<u128, MetadataNode>,
    id: u128,
    range: BlockRange,
    block_size: u64,
) -> bool {
    &&& nodes.contains_key(id)
    &&& nodes[id].covered_range == range
    &&& forall|block: int| #[trigger] block_at(nodes, id, block) is None
    &&& forall|byte: int| #[trigger] run_at(nodes, id, block_size, byte) is None
}

/// The widest children that still make up `blocks` with at most `fanout` of
/// them: the leaf width times a power of the fanout.
fn child_span(blocks: u64, leaf_blocks: u64, fanout: u64) -> (span: u64)
    requires
        leaf_blocks > 0,
        fanout > 1,
        blocks > leaf_blocks,
    ensures
        leaf_blocks <= span < blocks,
        span * fanout >= blocks,
{
    let mut span: u64 = leaf_blocks;
    let mut widest = false;
    while !widest
        invariant
            leaf_blocks <= span < blocks,
            span > 0,
            fanout > 1,
            widest ==> span * fanout >= blocks,
        decreases blocks - span, (if widest { 0int } else { 1int }),
    {
        match span.checked_mul(fanout) {
            Some(next) => {
                if next < blocks {
                    assert(span * fanout >= span * 2) by (nonlinear_arith)
                        requires
                            fanout >= 2,
                            span > 0,
                    ;
                    span = next;
                } else {
                    widest = true;
                }
            },
            None => {
                widest = true;
            },
        }
    }
    span
}

/// Builds a tree over `range` that holds nothing.
pub fn build_empty_tree(
    store: &mut TreeStore,
    range: BlockRange,
    leaf_blocks: u64,
    fanout: u64,
    block_size: u64,
) -> (result: Result<MetadataNodeId, StorageError>)
    requires
        old(store).wf(block_size),
        range.blocks.0 > 0,
        range.end() * block_size <= u64::MAX,
        leaf_blocks > 0,
        fanout > 1,
    ensures
        final(store).wf(block_size),
        keeps_nodes(old(store).nodes@, final(store).nodes@),
        old(store).next_metadata_node_id <= final(store).next_metadata_node_id,
        final(store).spare() == old(store).spare(),
        result matches Ok(root) ==> is_empty_tree(
            final(store).nodes@,
            root.0,
            range,
            block_size,
        ) && old(store).next_metadata_node_id <= root.0,
        forall|id: u128| #[trigger]
            final(store).nodes@.contains_key(id) && !old(store).nodes@.contains_key(id)
                ==> holds_no_entries(final(store).nodes@[id]),
        result matches Err(error) ==> error is Conflict && final(store).next_metadata_node_id
            == u128::MAX,
    decreases range.blocks.0,
{
    let ghost before = store.nodes@;
    if range.blocks.0 <= leaf_blocks {
        let entries: Vec<LeafEntry> = Vec::new();
        let run_extents: Vec<RunBackedFileExtent> = Vec::new();
        return store.allocate_metadata_node(
            range,
            MetadataNodeKind::Leaf { entries, run_extents },
            Ghost(block_size),
        );
    }
    let span: u64 = child_span(range.blocks.0, leaf_blocks, fanout);
    let mut children: Vec<MetadataChild> = Vec::new();
    let mut done: u64 = 0;
    assert(range.end() <= u64::MAX) by (nonlinear_arith)
        requires
            range.end() * block_size <= u64::MAX,
            block_size >= 1,
            range.end() >= 0,
    ;
    while done < range.blocks.0
        invariant
            done <= range.blocks.0,
            store.wf(block_size),
            keeps_nodes(before, store.nodes@),
            old(store).nodes@ == before,
            old(store).next_metadata_node_id <= store.next_metadata_node_id,
            store.spare() == old(store).spare(),
            leaf_blocks > 0,
            fanout > 1,
            0 < span < range.blocks.0,
            range.end() <= u64::MAX,
            range.end() * block_size <= u64::MAX,
            forall|i: int|
                0 <= i < children@.len() ==> #[trigger] is_empty_tree(
                    store.nodes@,
                    children@[i].node_id.0,
                    children@[i].range,
                    block_size,
                ),
            forall|i: int|
                0 <= i < children@.len() ==> (#[trigger] children@[i]).range.blocks.0 > 0
                    && range.start.0 <= children@[i].range.start.0 && children@[i].range.end()
                    <= range.start.0 + done,
            forall|i: int, j: int|
                0 <= i < j < children@.len() ==> (#[trigger] children@[i]).range.end() <= (
                #[trigger] children@[j]).range.start.0,
            forall|block: int|
                range.start.0 <= block < range.start.0 + done ==> #[trigger] has_child_at(
                    children@,
                    block,
                ),
            forall|id: u128| #[trigger]
                store.nodes@.contains_key(id) && !before.contains_key(id) ==> holds_no_entries(
                    store.nodes@[id],
                ),
        decreases range.blocks.0 - done,
    {
        let rest: u64 = range.blocks.0 - done;
        let width: u64 = if rest < span {
            rest
        } else {
            span
        };
        let child_range = BlockRange {
            start: BlockIndex(range.start.0 + done),
            blocks: BlockCount(width),
        };
        let ghost nodes_before = store.nodes@;
        let ghost children_before = children@;
        proof {
            lemma_mul_le(child_range.end(), range.end(), block_size as int);
        }
        let node_id = match build_empty_tree(store, child_range, leaf_blocks, fanout, block_size) {
            Ok(node_id) => node_id,
            Err(error) => return Err(error),
        };
        let child = MetadataChild { range: child_range, node_id };
        children.push(child);
        proof {
            assert forall|i: int| 0 <= i < children@.len() implies #[trigger] is_empty_tree(
                store.nodes@,
                children@[i].node_id.0,
                children@[i].range,
                block_size,
            ) by {
                if i < children_before.len() {
                    assert(is_empty_tree(
                        nodes_before,
                        children_before[i].node_id.0,
                        children_before[i].range,
                        block_size,
                    ));
                    law_trees_are_immutable(
                        nodes_before,
                        store.nodes@,
                        block_size,
                        children_before[i].node_id.0,
                    );
                }
            }
            assert forall|block: int| range.start.0 <= block < range.start.0 + done
                + width implies #[trigger] has_child_at(children@, block) by {
                if block < range.start.0 + done {
                    assert(has_child_at(children_before, block));
                    let i = child_index(children_before, block);
                    assert(children@[i].range.contains(block));
                } else {
                    assert(children@[children_before.len() as int].range.contains(block));
                }
            }
            assert forall|id: u128| #[trigger] store.nodes@.contains_key(id)
                && !before.contains_key(id) implies holds_no_entries(store.nodes@[id]) by {
                if nodes_before.contains_key(id) {
                    assert(store.nodes@[id] == nodes_before[id]);
                }
            }
        }
        done = done + width;
    }
    let ghost nodes_after = store.nodes@;
    let ghost joined = children@;
    let ghost next = store.next_metadata_node_id;
    proof {
        assert(children_tile(joined, range));
        assert forall|node: MetadataNode| #[trigger] children_wf(
            nodes_after.insert(next, node),
            joined,
            range,
            next,
        ) by {
            assert forall|i: int| 0 <= i < joined.len() implies nodes_after.insert(
                next,
                node,
            ).contains_key((#[trigger] joined[i]).node_id.0) && joined[i].node_id.0 < next
                && nodes_after.insert(next, node)[joined[i].node_id.0].covered_range
                == joined[i].range && joined[i].range.blocks.0 > 0 by {
                assert(is_empty_tree(
                    nodes_after,
                    joined[i].node_id.0,
                    joined[i].range,
                    block_size,
                ));
            }
        }
    }
    let result = store.allocate_metadata_node(
        range,
        MetadataNodeKind::Internal { children },
        Ghost(block_size),
    );
    proof {
        if let Ok(root) = result {
            let after = store.nodes@;
            assert(after[root.0].kind->Internal_children@ == joined);
            assert(node_wf(after, root.0, block_size));
            assert forall|block: int| #[trigger] block_at(after, root.0, block) is None by {
                if has_child_at(joined, block) {
                    let i = child_index(joined, block);
                    assert(joined[i].node_id.0 < root.0);
                    assert(block_at(after, root.0, block) == block_at(
                        after,
                        joined[i].node_id.0,
                        block,
                    ));
                    assert(is_empty_tree(
                        nodes_after,
                        joined[i].node_id.0,
                        joined[i].range,
                        block_size,
                    ));
                    law_trees_are_immutable(nodes_after, after, block_size, joined[i].node_id.0);
                    assert(block_at(nodes_after, joined[i].node_id.0, block) is None);
                }
            }
            assert forall|byte: int| #[trigger] run_at(after, root.0, block_size, byte) is None by {
                let block = byte / block_size as int;
                if has_child_at(joined, block) {
                    let i = child_index(joined, block);
                    assert(joined[i].node_id.0 < root.0);
                    assert(run_at(after, root.0, block_size, byte) == run_at(
                        after,
                        joined[i].node_id.0,
                        block_size,
                        byte,
                    ));
                    assert(is_empty_tree(
                        nodes_after,
                        joined[i].node_id.0,
                        joined[i].range,
                        block_size,
                    ));
                    law_trees_are_immutable(nodes_after, after, block_size, joined[i].node_id.0);
                    assert(run_at(nodes_after, joined[i].node_id.0, block_size, byte) is None);
                }
            }
        }
    }
    result
}

/// Whether a node maps nothing itself.
pub open spec fn holds_no_entries(node: MetadataNode) -> bool {
    node.kind matches MetadataNodeKind::Leaf { entries, run_extents } ==> entries@.len() == 0
        && run_extents@.len() == 0
}

} // verus!
